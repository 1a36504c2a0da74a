use vstd::prelude::*;
use vstd::arithmetic::power2::{pow2, lemma2_to64, lemma_pow2_unfold, lemma_pow2_pos};
use crate::stack::{Stack, MoveError, move_outcome, descending, full_tower};

verus! {

/// One ring moved from the peg named `from` to the peg named `to`.
pub struct Move {
    pub from: String,
    pub to: String,
}

impl View for Move {
    type V = (Seq<char>, Seq<char>);

    open spec fn view(&self) -> (Seq<char>, Seq<char>) {
        (self.from@, self.to@)
    }
}

/// The state of the three pegs of one solve call, by role, the moves made so
/// far (source and target names), and how the call ended.
pub struct Outcome {
    pub result: Result<(), MoveError>,
    pub source: Seq<usize>,
    pub target: Seq<usize>,
    pub helper: Seq<usize>,
    pub moves: Seq<(Seq<char>, Seq<char>)>,
}

/// What relocating the top `depth` rings of `s` onto `t` by way of `h` does:
/// the top `depth - 1` go to the helper, the uncovered ring goes to the target,
/// and the `depth - 1` follow it; the first refused move ends the whole solve.
/// `sn`, `tn` and `hn` are the pegs' names.
pub open spec fn solve(
    s: Seq<usize>,
    t: Seq<usize>,
    h: Seq<usize>,
    sn: Seq<char>,
    tn: Seq<char>,
    hn: Seq<char>,
    depth: nat,
) -> Outcome
    decreases depth,
{
    if depth == 0 {
        Outcome { result: Ok(()), source: s, target: t, helper: h, moves: seq![] }
    } else {
        let first = solve(s, h, t, sn, hn, tn, (depth - 1) as nat);
        if first.result is Err {
            Outcome {
                result: first.result,
                source: first.source,
                target: first.helper,
                helper: first.target,
                moves: first.moves,
            }
        } else {
            match move_outcome(first.source, first.helper) {
                Err(e) => Outcome {
                    result: Err(e),
                    source: first.source,
                    target: first.helper,
                    helper: first.target,
                    moves: first.moves,
                },
                Ok((s2, t2)) => {
                    let second = solve(first.target, t2, s2, hn, tn, sn, (depth - 1) as nat);
                    Outcome {
                        result: second.result,
                        source: second.helper,
                        target: second.target,
                        helper: second.source,
                        moves: first.moves + seq![(sn, tn)] + second.moves,
                    }
                },
            }
        }
    }
}

/// A solve of depth `depth` makes at most `2^depth - 1` moves.
pub proof fn lemma_solve_move_bound(
    s: Seq<usize>,
    t: Seq<usize>,
    h: Seq<usize>,
    sn: Seq<char>,
    tn: Seq<char>,
    hn: Seq<char>,
    depth: nat,
)
    ensures
        solve(s, t, h, sn, tn, hn, depth).moves.len() <= pow2(depth) - 1,
    decreases depth,
{
    lemma_pow2_pos(depth);
    if depth > 0 {
        lemma_pow2_unfold(depth);
        let first = solve(s, h, t, sn, hn, tn, (depth - 1) as nat);
        lemma_solve_move_bound(s, h, t, sn, hn, tn, (depth - 1) as nat);
        if first.result is Ok {
            if let Ok((s2, t2)) = move_outcome(first.source, first.helper) {
                lemma_solve_move_bound(first.target, t2, s2, hn, tn, sn, (depth - 1) as nat);
            }
        }
    }
}

/// The top `depth` rings of `s` can be relocated by the rules: all three pegs
/// are strictly descending, `s` holds at least `depth` rings, and each of its
/// top `depth` rings is smaller than the top rings of `t` and `h`.
pub open spec fn tower_ready(s: Seq<usize>, t: Seq<usize>, h: Seq<usize>, depth: nat) -> bool {
    &&& descending(s)
    &&& descending(t)
    &&& descending(h)
    &&& depth <= s.len()
    &&& forall|i: int|
        s.len() - depth <= i < s.len() ==> (t.len() > 0 ==> s[i] < t.last()) && (h.len() > 0
            ==> s[i] < h.last())
}

/// Putting the rings of `a` from index `k` up, in order, on top of `b` keeps
/// `b` strictly descending when each of them is smaller than `b`'s top ring.
proof fn lemma_stack_top_descending(b: Seq<usize>, a: Seq<usize>, k: int)
    requires
        descending(b),
        descending(a),
        0 <= k <= a.len(),
        forall|i: int| k <= i < a.len() ==> (b.len() > 0 ==> a[i] < b.last()),
    ensures
        descending(b + a.subrange(k, a.len() as int)),
{
    let r = b + a.subrange(k, a.len() as int);
    assert forall|i: int, j: int| 0 <= i < j < r.len() implies r[i] > r[j] by {
        if j >= b.len() && i < b.len() {
            assert(r[j] == a[k + j - b.len()]);
            if i < b.len() - 1 {
                assert(b[i] > b.last());
            }
        } else if j >= b.len() {
            assert(r[i] == a[k + i - b.len()]);
            assert(r[j] == a[k + j - b.len()]);
        }
    }
}

/// After the top `depth - 1` rings of a legal configuration went to the helper
/// and the uncovered ring to the target, the rest of the solve starts from a
/// legal configuration again.
proof fn lemma_second_ready(s: Seq<usize>, t: Seq<usize>, h: Seq<usize>, depth: nat)
    requires
        tower_ready(s, t, h, depth),
        depth > 0,
    ensures
        ({
            let k = s.len() - depth;
            tower_ready(
                h + s.subrange(k + 1, s.len() as int),
                t.push(s[k]),
                s.subrange(0, k),
                (depth - 1) as nat,
            )
        }),
{
    let k = s.len() - depth;
    let n1 = (depth - 1) as nat;
    let h1 = h + s.subrange(k + 1, s.len() as int);
    let t2 = t.push(s[k]);
    let s2 = s.subrange(0, k);
    lemma_stack_top_descending(h, s, k + 1);
    assert(descending(t2)) by {
        assert forall|i: int, j: int| 0 <= i < j < t2.len() implies t2[i] > t2[j] by {
            if j == t.len() && i < t.len() - 1 {
                assert(t[i] > t.last());
            }
        }
    }
    assert(descending(s2));
    assert forall|i: int| h1.len() - n1 <= i < h1.len() implies (t2.len() > 0 ==> h1[i]
        < t2.last()) && (s2.len() > 0 ==> h1[i] < s2.last()) by {
        assert(h1[i] == s[k + 1 + i - h.len()]);
    }
}

/// From a legal configuration the solve never fails: the top `depth` rings of
/// the source end on the target in the same order, the helper ends as it
/// began, all three stay strictly descending, and exactly `2^depth - 1` moves
/// are made.
pub proof fn lemma_solve_tower(
    s: Seq<usize>,
    t: Seq<usize>,
    h: Seq<usize>,
    sn: Seq<char>,
    tn: Seq<char>,
    hn: Seq<char>,
    depth: nat,
)
    requires
        tower_ready(s, t, h, depth),
    ensures
        ({
            let o = solve(s, t, h, sn, tn, hn, depth);
            &&& o.result is Ok
            &&& o.source == s.subrange(0, s.len() - depth)
            &&& o.target == t + s.subrange(s.len() - depth, s.len() as int)
            &&& o.helper == h
            &&& o.moves.len() == pow2(depth) - 1
            &&& descending(o.source)
            &&& descending(o.target)
            &&& descending(o.helper)
        }),
    decreases depth,
{
    lemma_pow2_pos(depth);
    let k = s.len() - depth;
    lemma_stack_top_descending(t, s, k);
    if depth == 0 {
        lemma2_to64();
        assert(s.subrange(0, s.len() as int) =~= s);
        assert(t + s.subrange(k, s.len() as int) =~= t);
    } else {
        lemma_pow2_unfold(depth);
        let n1 = (depth - 1) as nat;
        lemma_solve_tower(s, h, t, sn, hn, tn, n1);
        let first = solve(s, h, t, sn, hn, tn, n1);
        let s1 = s.subrange(0, k + 1);
        let top = s.subrange(k + 1, s.len() as int);
        assert(first.source == s1);
        assert(s1.last() == s[k]);
        let s2 = s.subrange(0, k);
        let t2 = t.push(s[k]);
        assert(s1.drop_last() =~= s2);
        let h1 = h + top;
        assert(first.target == h1);
        lemma_second_ready(s, t, h, depth);
        lemma_solve_tower(h1, t2, s2, hn, tn, sn, n1);
        assert(h1.subrange(0, h1.len() - n1) =~= h);
        assert(h1.subrange(h1.len() - n1, h1.len() as int) =~= top);
        assert(t2 + top =~= t + s.subrange(k, s.len() as int));
        assert(s2.subrange(0, s2.len() as int) =~= s2);
        assert(move_outcome(s1, t) == Ok::<(Seq<usize>, Seq<usize>), MoveError>((s2, t2)));
    }
}

/// A full tower of `n` rings moved onto an empty peg by way of an empty peg
/// takes exactly `2^n - 1` moves, and the whole tower arrives intact.
pub proof fn lemma_full_tower_moves(n: nat, sn: Seq<char>, tn: Seq<char>, hn: Seq<char>)
    requires
        n <= usize::MAX,
    ensures
        ({
            let o = solve(full_tower(n), seq![], seq![], sn, tn, hn, n);
            &&& o.result is Ok
            &&& o.moves.len() == pow2(n) - 1
            &&& o.source == Seq::<usize>::empty()
            &&& o.target == full_tower(n)
            &&& o.helper == Seq::<usize>::empty()
        }),
{
    let s = full_tower(n);
    assert(descending(s));
    lemma_solve_tower(s, seq![], seq![], sn, tn, hn, n);
    assert(s.subrange(0, 0) =~= Seq::<usize>::empty());
    assert(Seq::<usize>::empty() + s.subrange(0, n as int) =~= s);
}

/// The rings of (source, target, helper) after each move that
/// `solve(s, t, h, sn, tn, hn, depth)` makes, in order.
pub open spec fn solve_states(
    s: Seq<usize>,
    t: Seq<usize>,
    h: Seq<usize>,
    sn: Seq<char>,
    tn: Seq<char>,
    hn: Seq<char>,
    depth: nat,
) -> Seq<(Seq<usize>, Seq<usize>, Seq<usize>)>
    decreases depth,
{
    if depth == 0 {
        seq![]
    } else {
        let first = solve(s, h, t, sn, hn, tn, (depth - 1) as nat);
        let before = solve_states(s, h, t, sn, hn, tn, (depth - 1) as nat).map_values(
            |x: (Seq<usize>, Seq<usize>, Seq<usize>)| (x.0, x.2, x.1),
        );
        if first.result is Err {
            before
        } else {
            match move_outcome(first.source, first.helper) {
                Err(_) => before,
                Ok((s2, t2)) => {
                    let after = solve_states(first.target, t2, s2, hn, tn, sn, (depth - 1) as nat).map_values(
                        |y: (Seq<usize>, Seq<usize>, Seq<usize>)| (y.2, y.1, y.0),
                    );
                    before + seq![(s2, t2, first.target)] + after
                },
            }
        }
    }
}

/// From a legal configuration, the state after every single move of the solve
/// has all three pegs strictly descending; there is one state per move, and
/// the last is the state the solve ends in.
pub proof fn lemma_every_state_descending(
    s: Seq<usize>,
    t: Seq<usize>,
    h: Seq<usize>,
    sn: Seq<char>,
    tn: Seq<char>,
    hn: Seq<char>,
    depth: nat,
)
    requires
        tower_ready(s, t, h, depth),
    ensures
        ({
            let states = solve_states(s, t, h, sn, tn, hn, depth);
            let o = solve(s, t, h, sn, tn, hn, depth);
            &&& states.len() == o.moves.len()
            &&& states.len() > 0 ==> states.last() == (o.source, o.target, o.helper)
            &&& forall|i: int|
                0 <= i < states.len() ==> descending(#[trigger] states[i].0) && descending(
                    states[i].1,
                ) && descending(states[i].2)
        }),
    decreases depth,
{
    if depth > 0 {
        let n1 = (depth - 1) as nat;
        let k = s.len() - depth;
        lemma_solve_tower(s, h, t, sn, hn, tn, n1);
        lemma_every_state_descending(s, h, t, sn, hn, tn, n1);
        let first = solve(s, h, t, sn, hn, tn, n1);
        let s1 = s.subrange(0, k + 1);
        assert(first.source == s1);
        assert(s1.drop_last() =~= s.subrange(0, k));
        lemma_second_ready(s, t, h, depth);
        let s2 = s.subrange(0, k);
        let t2 = t.push(s[k]);
        assert(first.target == h + s.subrange(k + 1, s.len() as int));
        lemma_every_state_descending(first.target, t2, s2, hn, tn, sn, n1);
        let states = solve_states(s, t, h, sn, tn, hn, depth);
        let before = solve_states(s, h, t, sn, hn, tn, n1);
        let after = solve_states(first.target, t2, s2, hn, tn, sn, n1);
        assert forall|i: int| 0 <= i < states.len() implies descending(#[trigger] states[i].0)
            && descending(states[i].1) && descending(states[i].2) by {
            if i < before.len() {
                assert(states[i].0 == before[i].0);
            } else if i > before.len() {
                assert(states[i].0 == after[i - before.len() - 1].2);
            }
        }
        let second = solve(first.target, t2, s2, hn, tn, sn, n1);
        if after.len() == 0 {
            assert(states.last() == (s2, t2, first.target));
            assert(second.helper == s2 && second.target == t2 && second.source == first.target) by {
                if n1 > 0 {
                    lemma_solve_tower(first.target, t2, s2, hn, tn, sn, n1);
                    lemma_pow2_pos(n1);
                }
            }
        } else {
            assert(states.last() == (after.last().2, after.last().1, after.last().0));
        }
    }
}

/// The rings of the peg called `name`, where the pegs called `names.0`,
/// `names.1` and `names.2` hold `pegs.0`, `pegs.1` and `pegs.2`.
#[verifier::opaque]
pub open spec fn peg_named(
    pegs: (Seq<usize>, Seq<usize>, Seq<usize>),
    names: (Seq<char>, Seq<char>, Seq<char>),
    name: Seq<char>,
) -> Seq<usize> {
    if name == names.0 {
        pegs.0
    } else if name == names.1 {
        pegs.1
    } else {
        pegs.2
    }
}

/// The pegs after the move `mv` (source and target names), when it is legal.
#[verifier::opaque]
pub open spec fn apply_move(
    pegs: (Seq<usize>, Seq<usize>, Seq<usize>),
    names: (Seq<char>, Seq<char>, Seq<char>),
    mv: (Seq<char>, Seq<char>),
) -> (Seq<usize>, Seq<usize>, Seq<usize>) {
    let (from, to) = move_outcome(peg_named(pegs, names, mv.0), peg_named(pegs, names, mv.1))->Ok_0;
    let pick = |name: Seq<char>, old_rings: Seq<usize>|
        if name == mv.0 {
            from
        } else if name == mv.1 {
            to
        } else {
            old_rings
        };
    (pick(names.0, pegs.0), pick(names.1, pegs.1), pick(names.2, pegs.2))
}

/// `name` is one of `names`.
pub open spec fn named(names: (Seq<char>, Seq<char>, Seq<char>), name: Seq<char>) -> bool {
    name == names.0 || name == names.1 || name == names.2
}

/// Listing the second and third pegs the other way round, names and rings
/// alike, changes neither which rings a name picks nor what a move does.
proof fn lemma_swap_last_two(
    x: (Seq<usize>, Seq<usize>, Seq<usize>),
    names: (Seq<char>, Seq<char>, Seq<char>),
    mv: (Seq<char>, Seq<char>),
)
    requires
        names.0 != names.1,
        names.1 != names.2,
        names.0 != names.2,
        named(names, mv.0),
        named(names, mv.1),
    ensures
        peg_named((x.0, x.2, x.1), (names.0, names.2, names.1), mv.0) == peg_named(x, names, mv.0),
        peg_named((x.0, x.2, x.1), (names.0, names.2, names.1), mv.1) == peg_named(x, names, mv.1),
        apply_move((x.0, x.2, x.1), (names.0, names.2, names.1), mv) == ({
            let y = apply_move(x, names, mv);
            (y.0, y.2, y.1)
        }),
{
    reveal(peg_named);
    reveal(apply_move);
}

/// Listing the first and third pegs the other way round, names and rings
/// alike, changes neither which rings a name picks nor what a move does.
proof fn lemma_swap_first_last(
    x: (Seq<usize>, Seq<usize>, Seq<usize>),
    names: (Seq<char>, Seq<char>, Seq<char>),
    mv: (Seq<char>, Seq<char>),
)
    requires
        names.0 != names.1,
        names.1 != names.2,
        names.0 != names.2,
        named(names, mv.0),
        named(names, mv.1),
    ensures
        peg_named((x.2, x.1, x.0), (names.2, names.1, names.0), mv.0) == peg_named(x, names, mv.0),
        peg_named((x.2, x.1, x.0), (names.2, names.1, names.0), mv.1) == peg_named(x, names, mv.1),
        apply_move((x.2, x.1, x.0), (names.2, names.1, names.0), mv) == ({
            let y = apply_move(x, names, mv);
            (y.2, y.1, y.0)
        }),
{
    reveal(peg_named);
    reveal(apply_move);
}

/// Every move of a solve goes between two of its three pegs.
proof fn lemma_moves_named(
    s: Seq<usize>,
    t: Seq<usize>,
    h: Seq<usize>,
    sn: Seq<char>,
    tn: Seq<char>,
    hn: Seq<char>,
    depth: nat,
)
    ensures
        ({
            let moves = solve(s, t, h, sn, tn, hn, depth).moves;
            forall|i: int|
                0 <= i < moves.len() ==> named((sn, tn, hn), #[trigger] moves[i].0) && named(
                    (sn, tn, hn),
                    moves[i].1,
                )
        }),
    decreases depth,
{
    if depth > 0 {
        let n1 = (depth - 1) as nat;
        lemma_moves_named(s, h, t, sn, hn, tn, n1);
        let first = solve(s, h, t, sn, hn, tn, n1);
        if first.result is Ok {
            if let Ok((s2, t2)) = move_outcome(first.source, first.helper) {
                lemma_moves_named(first.target, t2, s2, hn, tn, sn, n1);
                let second = solve(first.target, t2, s2, hn, tn, sn, n1);
                let moves = solve(s, t, h, sn, tn, hn, depth).moves;
                assert forall|i: int| 0 <= i < moves.len() implies named(
                    (sn, tn, hn),
                    #[trigger] moves[i].0,
                ) && named((sn, tn, hn), moves[i].1) by {
                    if i < first.moves.len() {
                        assert(moves[i] == first.moves[i]);
                    } else if i > first.moves.len() {
                        assert(moves[i] == second.moves[i - first.moves.len() - 1]);
                    }
                }
            }
        }
    }
}

/// Each of `states` is the one before it (`init` for the first) with the
/// matching one of `moves` applied, and that move is legal there.
pub open spec fn follows(
    init: (Seq<usize>, Seq<usize>, Seq<usize>),
    names: (Seq<char>, Seq<char>, Seq<char>),
    states: Seq<(Seq<usize>, Seq<usize>, Seq<usize>)>,
    moves: Seq<(Seq<char>, Seq<char>)>,
) -> bool {
    &&& states.len() == moves.len()
    &&& forall|i: int|
        0 <= i < states.len() ==> {
            let prev = if i == 0 {
                init
            } else {
                states[i - 1]
            };
            &&& move_outcome(peg_named(prev, names, moves[i].0), peg_named(prev, names, moves[i].1))
                is Ok
            &&& states[i] == apply_move(prev, names, #[trigger] moves[i])
        }
}

/// The last of `states`, or `init` when there is none.
pub open spec fn last_state(
    init: (Seq<usize>, Seq<usize>, Seq<usize>),
    states: Seq<(Seq<usize>, Seq<usize>, Seq<usize>)>,
) -> (Seq<usize>, Seq<usize>, Seq<usize>) {
    if states.len() == 0 {
        init
    } else {
        states.last()
    }
}

proof fn lemma_follows_concat(
    init: (Seq<usize>, Seq<usize>, Seq<usize>),
    names: (Seq<char>, Seq<char>, Seq<char>),
    x: Seq<(Seq<usize>, Seq<usize>, Seq<usize>)>,
    m1: Seq<(Seq<char>, Seq<char>)>,
    y: Seq<(Seq<usize>, Seq<usize>, Seq<usize>)>,
    m2: Seq<(Seq<char>, Seq<char>)>,
)
    requires
        follows(init, names, x, m1),
        follows(last_state(init, x), names, y, m2),
    ensures
        follows(init, names, x + y, m1 + m2),
{
    let xy = x + y;
    let m = m1 + m2;
    assert forall|i: int| 0 <= i < xy.len() implies {
        let prev = if i == 0 {
            init
        } else {
            xy[i - 1]
        };
        &&& move_outcome(peg_named(prev, names, m[i].0), peg_named(prev, names, m[i].1)) is Ok
        &&& xy[i] == apply_move(prev, names, #[trigger] m[i])
    } by {
        if i >= x.len() {
            let j = i - x.len();
            assert(xy[i] == y[j]);
            assert(m[i] == m2[j]);
        } else {
            assert(xy[i] == x[i]);
            assert(m[i] == m1[i]);
        }
    }
}

proof fn lemma_follows_swap_last_two(
    init: (Seq<usize>, Seq<usize>, Seq<usize>),
    names: (Seq<char>, Seq<char>, Seq<char>),
    x: Seq<(Seq<usize>, Seq<usize>, Seq<usize>)>,
    m: Seq<(Seq<char>, Seq<char>)>,
)
    requires
        follows(init, names, x, m),
        names.0 != names.1,
        names.1 != names.2,
        names.0 != names.2,
        forall|i: int| 0 <= i < m.len() ==> named(names, #[trigger] m[i].0) && named(names, m[i].1),
    ensures
        follows(
            (init.0, init.2, init.1),
            (names.0, names.2, names.1),
            x.map_values(|p: (Seq<usize>, Seq<usize>, Seq<usize>)| (p.0, p.2, p.1)),
            m,
        ),
{
    let y = x.map_values(|p: (Seq<usize>, Seq<usize>, Seq<usize>)| (p.0, p.2, p.1));
    assert forall|i: int| 0 <= i < y.len() implies {
        let prev = if i == 0 {
            (init.0, init.2, init.1)
        } else {
            y[i - 1]
        };
        &&& move_outcome(
            peg_named(prev, (names.0, names.2, names.1), m[i].0),
            peg_named(prev, (names.0, names.2, names.1), m[i].1),
        ) is Ok
        &&& y[i] == apply_move(prev, (names.0, names.2, names.1), #[trigger] m[i])
    } by {
        let xp = if i == 0 {
            init
        } else {
            x[i - 1]
        };
        assert(x[i] == apply_move(xp, names, m[i]));
        lemma_swap_last_two(xp, names, m[i]);
    }
}

proof fn lemma_follows_swap_first_last(
    init: (Seq<usize>, Seq<usize>, Seq<usize>),
    names: (Seq<char>, Seq<char>, Seq<char>),
    x: Seq<(Seq<usize>, Seq<usize>, Seq<usize>)>,
    m: Seq<(Seq<char>, Seq<char>)>,
)
    requires
        follows(init, names, x, m),
        names.0 != names.1,
        names.1 != names.2,
        names.0 != names.2,
        forall|i: int| 0 <= i < m.len() ==> named(names, #[trigger] m[i].0) && named(names, m[i].1),
    ensures
        follows(
            (init.2, init.1, init.0),
            (names.2, names.1, names.0),
            x.map_values(|p: (Seq<usize>, Seq<usize>, Seq<usize>)| (p.2, p.1, p.0)),
            m,
        ),
{
    let y = x.map_values(|p: (Seq<usize>, Seq<usize>, Seq<usize>)| (p.2, p.1, p.0));
    assert forall|i: int| 0 <= i < y.len() implies {
        let prev = if i == 0 {
            (init.2, init.1, init.0)
        } else {
            y[i - 1]
        };
        &&& move_outcome(
            peg_named(prev, (names.2, names.1, names.0), m[i].0),
            peg_named(prev, (names.2, names.1, names.0), m[i].1),
        ) is Ok
        &&& y[i] == apply_move(prev, (names.2, names.1, names.0), #[trigger] m[i])
    } by {
        let xp = if i == 0 {
            init
        } else {
            x[i - 1]
        };
        assert(x[i] == apply_move(xp, names, m[i]));
        lemma_swap_first_last(xp, names, m[i]);
    }
}

/// From a legal configuration with three distinct peg names, each state that
/// `solve_states` lists is the one before it (the starting pegs for the
/// first) with the matching move of the solve applied, and that move is legal
/// there.
pub proof fn lemma_states_follow_moves(
    s: Seq<usize>,
    t: Seq<usize>,
    h: Seq<usize>,
    sn: Seq<char>,
    tn: Seq<char>,
    hn: Seq<char>,
    depth: nat,
)
    requires
        tower_ready(s, t, h, depth),
        sn != tn,
        tn != hn,
        sn != hn,
    ensures
        follows(
            (s, t, h),
            (sn, tn, hn),
            solve_states(s, t, h, sn, tn, hn, depth),
            solve(s, t, h, sn, tn, hn, depth).moves,
        ),
    decreases depth,
{
    if depth > 0 {
        let n1 = (depth - 1) as nat;
        let k = s.len() - depth;
        lemma_solve_tower(s, h, t, sn, hn, tn, n1);
        lemma_every_state_descending(s, h, t, sn, hn, tn, n1);
        lemma_states_follow_moves(s, h, t, sn, hn, tn, n1);
        lemma_moves_named(s, h, t, sn, hn, tn, n1);
        let first = solve(s, h, t, sn, hn, tn, n1);
        let s1 = s.subrange(0, k + 1);
        assert(first.source == s1);
        assert(s1.drop_last() =~= s.subrange(0, k));
        lemma_second_ready(s, t, h, depth);
        let s2 = s.subrange(0, k);
        let t2 = t.push(s[k]);
        assert(first.target == h + s.subrange(k + 1, s.len() as int));
        lemma_states_follow_moves(first.target, t2, s2, hn, tn, sn, n1);
        lemma_moves_named(first.target, t2, s2, hn, tn, sn, n1);
        let second = solve(first.target, t2, s2, hn, tn, sn, n1);
        let before = solve_states(s, h, t, sn, hn, tn, n1);
        let after = solve_states(first.target, t2, s2, hn, tn, sn, n1);
        let before2 = before.map_values(|p: (Seq<usize>, Seq<usize>, Seq<usize>)| (p.0, p.2, p.1));
        let after2 = after.map_values(|p: (Seq<usize>, Seq<usize>, Seq<usize>)| (p.2, p.1, p.0));
        lemma_follows_swap_last_two((s, h, t), (sn, hn, tn), before, first.moves);
        lemma_follows_swap_first_last((first.target, t2, s2), (hn, tn, sn), after, second.moves);
        let mid = (s2, t2, first.target);
        let names = (sn, tn, hn);
        assert(last_state((s, t, h), before2) == (s1, t, first.target)) by {
            if before.len() > 0 {
                assert(before.last() == (first.source, first.target, first.helper));
            }
        }
        assert(follows(last_state((s, t, h), before2), names, seq![mid], seq![(sn, tn)])) by {
            let prev = (s1, t, first.target);
            reveal(peg_named);
            reveal(apply_move);
            assert(peg_named(prev, names, sn) == s1);
            assert(peg_named(prev, names, tn) == t);
            assert(move_outcome(s1, t) == Ok::<(Seq<usize>, Seq<usize>), MoveError>((s2, t2)));
            assert(seq![mid][0] == apply_move(prev, names, (sn, tn)));
        }
        lemma_follows_concat((s, t, h), names, before2, first.moves, seq![mid], seq![(sn, tn)]);
        assert(last_state((s, t, h), before2 + seq![mid]) == mid);
        lemma_follows_concat(
            (s, t, h),
            names,
            before2 + seq![mid],
            first.moves + seq![(sn, tn)],
            after2,
            second.moves,
        );
    }
}

/// Moving the top `depth` rings from `a` to `b` by way of `c`, then moving
/// them back from `b` to `a` by way of `c`, restores all three pegs.
pub proof fn lemma_round_trip(
    a: Seq<usize>,
    b: Seq<usize>,
    c: Seq<usize>,
    an: Seq<char>,
    bn: Seq<char>,
    cn: Seq<char>,
    depth: nat,
)
    requires
        tower_ready(a, b, c, depth),
    ensures
        ({
            let there = solve(a, b, c, an, bn, cn, depth);
            let back = solve(there.target, there.source, there.helper, bn, an, cn, depth);
            &&& there.result is Ok
            &&& back.result is Ok
            &&& back.target == a
            &&& back.source == b
            &&& back.helper == c
        }),
{
    lemma_solve_tower(a, b, c, an, bn, cn, depth);
    let there = solve(a, b, c, an, bn, cn, depth);
    let k = a.len() - depth;
    let top = a.subrange(k, a.len() as int);
    let a1 = a.subrange(0, k);
    let b1 = b + top;
    lemma_stack_top_descending(b, a, k);
    assert(tower_ready(b1, a1, c, depth)) by {
        assert forall|i: int| b1.len() - depth <= i < b1.len() implies (a1.len() > 0 ==> b1[i]
            < a1.last()) && (c.len() > 0 ==> b1[i] < c.last()) by {
            assert(b1[i] == a[k + i - b.len()]);
        }
    }
    lemma_solve_tower(b1, a1, c, bn, an, cn, depth);
    assert(b1.subrange(0, b1.len() - depth) =~= b);
    assert(b1.subrange(b1.len() - depth, b1.len() as int) =~= top);
    assert(a1 + top =~= a);
}

/// The (source, target) names of each of `moves`.
pub open spec fn moves_view(moves: Seq<Move>) -> Seq<(Seq<char>, Seq<char>)> {
    moves.map_values(|m: Move| m@)
}

/// Relocates the top `max_depth` rings of `source` (all of them when `None`)
/// onto `target` through `helper_stack`, appending each move to `moves` and
/// counting it in `step`; the first refused move aborts the solve and its
/// error is returned, with the pegs as the moves before it left them. From a
/// legal configuration it succeeds, moving the top rings onto the target in
/// `2^depth - 1` moves.
pub fn move_stack(
    source: &mut Stack,
    target: &mut Stack,
    helper_stack: &mut Stack,
    step: &mut u32,
    max_depth: Option<&usize>,
    moves: &mut Vec<Move>,
) -> (r: Result<(), MoveError>)
    requires
        *old(step) + pow2(
            match max_depth {
                Some(d) => *d as nat,
                None => old(source).rings@.len(),
            },
        ) - 1 <= u32::MAX,
    ensures
        ({
            let depth = match max_depth {
                Some(d) => *d as nat,
                None => old(source).rings@.len(),
            };
            let o = solve(
                old(source).rings@,
                old(target).rings@,
                old(helper_stack).rings@,
                old(source).name@,
                old(target).name@,
                old(helper_stack).name@,
                depth,
            );
            &&& r == o.result
            &&& final(source).rings@ == o.source
            &&& final(target).rings@ == o.target
            &&& final(helper_stack).rings@ == o.helper
            &&& moves_view(final(moves)@) == moves_view(old(moves)@) + o.moves
            &&& *final(step) == *old(step) + o.moves.len()
            &&& tower_ready(old(source).rings@, old(target).rings@, old(helper_stack).rings@, depth)
                ==> {
                let len = old(source).rings@.len() as int;
                &&& r is Ok
                &&& final(source).rings@ == old(source).rings@.subrange(0, len - depth)
                &&& final(target).rings@ == old(target).rings@ + old(source).rings@.subrange(
                    len - depth,
                    len,
                )
                &&& final(helper_stack).rings@ == old(helper_stack).rings@
                &&& *final(step) == *old(step) + pow2(depth) - 1
                &&& final(moves)@.len() == old(moves)@.len() + pow2(depth) - 1
            }
        }),
        final(source).name == old(source).name,
        final(source).color == old(source).color,
        final(target).name == old(target).name,
        final(target).color == old(target).color,
        final(helper_stack).name == old(helper_stack).name,
        final(helper_stack).color == old(helper_stack).color,
    decreases
            match max_depth {
                Some(d) => *d as nat,
                None => old(source).rings@.len(),
            },
{
    let depth: usize = match max_depth {
        Some(d) => *d,
        None => source.rings.len(),
    };
    proof {
        if tower_ready(source.rings@, target.rings@, helper_stack.rings@, depth as nat) {
            lemma_solve_tower(
                source.rings@,
                target.rings@,
                helper_stack.rings@,
                source.name@,
                target.name@,
                helper_stack.name@,
                depth as nat,
            );
        }
    }
    if depth == 0 {
        assert(moves_view(moves@) =~= moves_view(moves@) + seq![]);
        return Ok(());
    }
    let next_depth: usize = depth - 1;
    proof {
        lemma_pow2_unfold(depth as nat);
        lemma_pow2_pos(next_depth as nat);
    }
    let ghost s0 = source.rings@;
    let ghost t0 = target.rings@;
    let ghost h0 = helper_stack.rings@;
    let ghost m0 = moves_view(moves@);
    let ghost first = solve(s0, h0, t0, source.name@, helper_stack.name@, target.name@, next_depth as nat);
    proof {
        lemma_solve_move_bound(s0, h0, t0, source.name@, helper_stack.name@, target.name@, next_depth as nat);
    }
    let result = move_stack(source, helper_stack, target, step, Some(&next_depth), moves);
    if let Err(e) = result {
        return Err(e);
    }
    let ghost m1 = moves_view(moves@);
    let moved = source.move_ring(target);
    if let Err(e) = moved {
        return Err(e);
    }
    let from = source.name.clone();
    let to = target.name.clone();
    moves.push(Move { from, to });
    *step = *step + 1;
    proof {
        assert(moves_view(moves@) =~= m1 + seq![(source.name@, target.name@)]);
        lemma_solve_move_bound(first.target, target.rings@, source.rings@, helper_stack.name@, target.name@, source.name@, next_depth as nat);
    }
    let result = move_stack(helper_stack, target, source, step, Some(&next_depth), moves);
    proof {
        assert(moves_view(moves@) =~= m0 + (first.moves + seq![(source.name@, target.name@)] + solve(
            first.target,
            first.helper.push(first.source.last()),
            first.source.drop_last(),
            helper_stack.name@,
            target.name@,
            source.name@,
            next_depth as nat,
        ).moves));
    }
    result
}

} // verus!
