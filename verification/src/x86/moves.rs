use vstd::prelude::*;

verus! {

broadcast use vstd::seq_lib::group_filter_ensures;

/// A move of the contents of one register (the first name) into another (the second name).
pub type Move = (Seq<char>, Seq<char>);

/// A move of two register names, taken by their characters.
pub open spec fn move_view(p: (String, String)) -> Move {
    (p.0@, p.1@)
}

/// A sequence of moves taken by the characters of their names.
pub open spec fn moves_view(v: Seq<(String, String)>) -> Seq<Move> {
    v.map_values(|p: (String, String)| move_view(p))
}

/// Some move of `m` reads register `y`.
pub open spec fn reads(m: Seq<Move>, y: Seq<char>) -> bool {
    exists|i: int| 0 <= i < m.len() && #[trigger] m[i].0 == y
}

/// Some move of `m` writes register `r`.
pub open spec fn writes(m: Seq<Move>, r: Seq<char>) -> bool {
    exists|i: int| 0 <= i < m.len() && #[trigger] m[i].1 == r
}

/// Moves of `m` into the same register agree on what they move there.
pub open spec fn sources_agree(m: Seq<Move>) -> bool {
    forall|i: int, j: int|
        0 <= i < m.len() && 0 <= j < m.len() && #[trigger] m[i].1 == #[trigger] m[j].1 ==> m[i].0
            == m[j].0
}

/// Every move of `a` is a move of `m`.
pub open spec fn within(a: Seq<Move>, m: Seq<Move>) -> bool {
    forall|k: int| 0 <= k < a.len() ==> m.contains(#[trigger] a[k])
}

/// The register that `m` moves into `r`.
pub open spec fn source_of(m: Seq<Move>, r: Seq<char>) -> Seq<char> {
    m[choose|i: int| 0 <= i < m.len() && #[trigger] m[i].1 == r].0
}

/// The registers after all moves of `m` are done at once, from the registers `s`.
pub open spec fn parallel<V>(m: Seq<Move>, s: spec_fn(Seq<char>) -> V) -> spec_fn(Seq<char>) -> V {
    |r: Seq<char>|
        if writes(m, r) {
            s(source_of(m, r))
        } else {
            s(r)
        }
}

/// The registers after the single move `p`.
pub open spec fn step<V>(s: spec_fn(Seq<char>) -> V, p: Move) -> spec_fn(Seq<char>) -> V {
    |r: Seq<char>|
        if r == p.1 {
            s(p.0)
        } else {
            s(r)
        }
}

/// The registers after the moves of `m`, done one after the other from the first.
pub open spec fn run<V>(m: Seq<Move>, s: spec_fn(Seq<char>) -> V) -> spec_fn(Seq<char>) -> V
    decreases m.len(),
{
    if m.len() == 0 {
        s
    } else {
        run(m.drop_first(), step(s, m[0]))
    }
}

/// The moves of `m` that move a register into another one.
pub open spec fn real_moves(m: Seq<Move>) -> Seq<Move> {
    m.filter(|p: Move| p.0 != p.1)
}

/// The moves of `m` whose destination some move of `m` still has to read.
pub open spec fn blocked(m: Seq<Move>) -> Seq<Move> {
    m.filter(|p: Move| reads(m, p.1))
}

/// The moves of `m` whose destination no move of `m` reads.
pub open spec fn ready(m: Seq<Move>) -> Seq<Move> {
    m.filter(|p: Move| !reads(m, p.1))
}

/// `m` with each read of `y` turned into a read of `sw`.
pub open spec fn redirect(m: Seq<Move>, y: Seq<char>, sw: Seq<char>) -> Seq<Move> {
    m.map_values(|p: Move| if p.0 == y { (sw, p.1) } else { p })
}

/// Splitting a sequence by a predicate and its negation keeps every element once.
pub proof fn lemma_partition_len<A>(s: Seq<A>, p: spec_fn(A) -> bool, q: spec_fn(A) -> bool)
    requires
        forall|a: A| #[trigger] q(a) == !p(a),
    ensures
        s.filter(p).len() + s.filter(q).len() == s.len(),
    decreases s.len(),
{
    reveal(Seq::filter);
    if s.len() > 0 {
        lemma_partition_len(s.drop_last(), p, q);
    }
}

/// Sequentialises the parallel moves `xys`, with `sw` as the spare register that breaks cycles.
pub open spec fn shuffle_moves(sw: Seq<char>, xys: Seq<Move>) -> Seq<Move>
    decreases xys.len(),
{
    let m = real_moves(xys);
    let cyc = blocked(m);
    let acyc = ready(m);
    proof {
        lemma_partition_len(m, |p: Move| reads(m, p.1), |p: Move| !reads(m, p.1));
    }
    if cyc.len() == 0 && acyc.len() == 0 {
        Seq::empty()
    } else if acyc.len() == 0 {
        let x = cyc[0].0;
        let y = cyc[0].1;
        seq![(y, sw), (x, y)] + shuffle_moves(sw, redirect(cyc.drop_first(), y, sw))
    } else {
        acyc + shuffle_moves(sw, cyc)
    }
}


proof fn lemma_filter_within(m: Seq<Move>, p: spec_fn(Move) -> bool)
    ensures
        within(m.filter(p), m),
{
    assert forall|k: int| 0 <= k < m.filter(p).len() implies m.contains(
        #[trigger] m.filter(p)[k],
    ) by {
        assert(m.filter(p).contains(m.filter(p)[k]));
        m.lemma_filter_contains_rev(p, m.filter(p)[k]);
    }
}

proof fn lemma_within(a: Seq<Move>, m: Seq<Move>)
    requires
        within(a, m),
    ensures
        forall|y: Seq<char>| reads(a, y) ==> reads(m, y),
        forall|r: Seq<char>| writes(a, r) ==> writes(m, r),
        sources_agree(m) ==> sources_agree(a),
{
    assert forall|y: Seq<char>| reads(a, y) implies reads(m, y) by {
        let k = choose|k: int| 0 <= k < a.len() && #[trigger] a[k].0 == y;
        assert(m.contains(a[k]));
    }
    assert forall|r: Seq<char>| writes(a, r) implies writes(m, r) by {
        let k = choose|k: int| 0 <= k < a.len() && #[trigger] a[k].1 == r;
        assert(m.contains(a[k]));
    }
    if sources_agree(m) {
        assert forall|i: int, j: int|
            0 <= i < a.len() && 0 <= j < a.len() && #[trigger] a[i].1 == #[trigger] a[j].1 implies a[i].0
            == a[j].0 by {
            assert(m.contains(a[i]));
            assert(m.contains(a[j]));
        }
    }
}

proof fn lemma_source_of(m: Seq<Move>, i: int)
    requires
        sources_agree(m),
        0 <= i < m.len(),
    ensures
        writes(m, m[i].1),
        source_of(m, m[i].1) == m[i].0,
{
    assert(writes(m, m[i].1));
}

proof fn lemma_run_append<V>(a: Seq<Move>, b: Seq<Move>, s: spec_fn(Seq<char>) -> V)
    ensures
        run(a + b, s) == run(b, run(a, s)),
    decreases a.len(),
{
    if a.len() == 0 {
        assert(a + b =~= b);
    } else {
        assert((a + b).drop_first() =~= a.drop_first() + b);
        assert((a + b)[0] == a[0]);
        lemma_run_append(a.drop_first(), b, step(s, a[0]));
    }
}

/// Moves whose destinations no move reads may be done one by one: the result is that of doing them at once.
proof fn lemma_run_ready<V>(a: Seq<Move>, s: spec_fn(Seq<char>) -> V)
    requires
        sources_agree(a),
        forall|i: int, j: int| 0 <= i < a.len() && 0 <= j < a.len() ==> #[trigger] a[i].1 != #[trigger] a[j].0,
    ensures
        run(a, s) == parallel(a, s),
    decreases a.len(),
{
    if a.len() == 0 {
        assert(parallel(a, s) =~= s);
    } else {
        let t = a.drop_first();
        let s1 = step(s, a[0]);
        assert forall|i: int, j: int| 0 <= i < t.len() && 0 <= j < t.len() implies #[trigger] t[i].1
            != #[trigger] t[j].0 by {
            assert(t[i] == a[i + 1] && t[j] == a[j + 1]);
        }
        assert forall|i: int, j: int|
            0 <= i < t.len() && 0 <= j < t.len() && #[trigger] t[i].1 == #[trigger] t[j].1 implies t[i].0
            == t[j].0 by {
            assert(t[i] == a[i + 1] && t[j] == a[j + 1]);
        }
        lemma_run_ready(t, s1);
        assert forall|r: Seq<char>| #[trigger] parallel(t, s1)(r) == parallel(a, s)(r) by {
            if writes(t, r) {
                let ck = choose|k: int| 0 <= k < t.len() && #[trigger] t[k].1 == r;
                assert(t[ck] == a[ck + 1]);
                lemma_source_of(a, ck + 1);
                assert(a[0].1 != a[ck + 1].0);
            } else if r == a[0].1 {
                lemma_source_of(a, 0);
            } else {
                if writes(a, r) {
                    let i = choose|i: int| 0 <= i < a.len() && #[trigger] a[i].1 == r;
                    assert(t[i - 1] == a[i]);
                }
            }
        }
        assert(parallel(t, s1) =~= parallel(a, s));
    }
}

/// Doing the ready moves first and the blocked ones next gives the moves done at once.
proof fn lemma_parallel_split<V>(m: Seq<Move>, s: spec_fn(Seq<char>) -> V)
    requires
        sources_agree(m),
    ensures
        parallel(blocked(m), parallel(ready(m), s)) == parallel(m, s),
{
    let cyc = blocked(m);
    let acyc = ready(m);
    let pc = |p: Move| reads(m, p.1);
    let pa = |p: Move| !reads(m, p.1);
    lemma_filter_within(m, pc);
    lemma_filter_within(m, pa);
    lemma_within(cyc, m);
    lemma_within(acyc, m);
    let s1 = parallel(acyc, s);
    assert forall|r: Seq<char>| #[trigger] parallel(cyc, s1)(r) == parallel(m, s)(r) by {
        if writes(cyc, r) {
            let ck = choose|k: int| 0 <= k < cyc.len() && #[trigger] cyc[k].1 == r;
            lemma_source_of(cyc, ck);
            let x = cyc[ck].0;
            assert(m.contains(cyc[ck]));
            let i = choose|i: int| 0 <= i < m.len() && m[i] == cyc[ck];
            lemma_source_of(m, i);
            assert(reads(m, x));
            if writes(acyc, x) {
                let q = choose|q: int| 0 <= q < acyc.len() && #[trigger] acyc[q].1 == x;
                assert(pa(acyc[q]));
            }
        } else if writes(acyc, r) {
            let q = choose|q: int| 0 <= q < acyc.len() && #[trigger] acyc[q].1 == r;
            lemma_source_of(acyc, q);
            assert(m.contains(acyc[q]));
            let j = choose|j: int| 0 <= j < m.len() && m[j] == acyc[q];
            lemma_source_of(m, j);
        } else {
            if writes(m, r) {
                let i = choose|i: int| 0 <= i < m.len() && #[trigger] m[i].1 == r;
                if pc(m[i]) {
                    assert(cyc.contains(m[i]));
                    let k = choose|k: int| 0 <= k < cyc.len() && cyc[k] == m[i];
                    assert(cyc[k].1 == r);
                } else {
                    assert(acyc.contains(m[i]));
                    let k = choose|k: int| 0 <= k < acyc.len() && acyc[k] == m[i];
                    assert(acyc[k].1 == r);
                }
            }
        }
    }
    assert(parallel(cyc, s1) =~= parallel(m, s));
}

/// Dropping the moves of a register into itself changes nothing.
proof fn lemma_real_moves<V>(m: Seq<Move>, s: spec_fn(Seq<char>) -> V)
    requires
        sources_agree(m),
    ensures
        parallel(real_moves(m), s) == parallel(m, s),
{
    let pr = |p: Move| p.0 != p.1;
    let rm = real_moves(m);
    lemma_filter_within(m, pr);
    lemma_within(rm, m);
    assert forall|r: Seq<char>| #[trigger] parallel(rm, s)(r) == parallel(m, s)(r) by {
        if writes(rm, r) {
            let k = choose|k: int| 0 <= k < rm.len() && #[trigger] rm[k].1 == r;
            lemma_source_of(rm, k);
            assert(m.contains(rm[k]));
            let i = choose|i: int| 0 <= i < m.len() && m[i] == rm[k];
            lemma_source_of(m, i);
        } else if writes(m, r) {
            let i = choose|i: int| 0 <= i < m.len() && #[trigger] m[i].1 == r;
            lemma_source_of(m, i);
            if pr(m[i]) {
                assert(rm.contains(m[i]));
                let k = choose|k: int| 0 <= k < rm.len() && rm[k] == m[i];
                assert(rm[k].1 == r);
            }
        }
    }
    assert(parallel(rm, s) =~= parallel(m, s));
}


/// When every destination of `m` is read by a move of `m`, the moves form cycles only:
/// a register that no move writes is then read by no move.
proof fn lemma_cycles_read_no_spare(m: Seq<Move>, sw: Seq<char>)
    requires
        sources_agree(m),
        !writes(m, sw),
        forall|i: int| 0 <= i < m.len() ==> reads(m, #[trigger] m[i].1),
    ensures
        !reads(m, sw),
{
    broadcast use vstd::seq_lib::seq_to_set_is_finite;
    broadcast use vstd::set::group_set_axioms;

    let ms = m.to_set();
    let fst = |p: Move| p.0;
    let snd = |p: Move| p.1;
    let dests = ms.map(snd);
    let srcs = ms.map(fst);
    assert(ms.finite());
    assert(vstd::relations::injective_on(snd, ms)) by {
        assert forall|p: Move, q: Move|
            ms.contains(p) && ms.contains(q) && #[trigger] snd(p) == #[trigger] snd(q) implies p == q by {
            assert(m.contains(p));
            assert(m.contains(q));
            let i = choose|i: int| 0 <= i < m.len() && m[i] == p;
            let j = choose|j: int| 0 <= j < m.len() && m[j] == q;
            assert(m[i].1 == m[j].1);
        }
    }
    vstd::set_lib::lemma_map_size(ms, dests, snd);
    vstd::set_lib::lemma_map_size_bound(ms, srcs, fst);
    if reads(m, sw) {
        let k = choose|k: int| 0 <= k < m.len() && #[trigger] m[k].0 == sw;
        assert(ms.contains(m[k]));
        assert(srcs.contains(fst(m[k])));
        assert(dests.subset_of(srcs.remove(sw))) by {
            assert forall|d: Seq<char>| dests.contains(d) implies srcs.remove(sw).contains(d) by {
                let p = choose|p: Move| ms.contains(p) && snd(p) == d;
                assert(m.contains(p));
                let i = choose|i: int| 0 <= i < m.len() && m[i] == p;
                assert(reads(m, m[i].1));
                let j = choose|j: int| 0 <= j < m.len() && #[trigger] m[j].0 == m[i].1;
                assert(ms.contains(m[j]));
                assert(srcs.contains(fst(m[j])));
                assert(m[i].1 != sw);
            }
        }
        vstd::set_lib::lemma_len_subset(dests, srcs.remove(sw));
        assert(false);
    }
}

/// The moves `seq![(y, sw), (x, y)]` done one by one.
proof fn lemma_run_two<V>(a: Move, b: Move, s: spec_fn(Seq<char>) -> V)
    ensures
        run(seq![a, b], s) == step(step(s, a), b),
{
    reveal_with_fuel(run, 3);
    assert(seq![a, b].drop_first() =~= seq![b]);
    assert(seq![b].drop_first() =~= Seq::<Move>::empty());
}


/// Breaking a cycle: saving the destination `y` of the first blocked move in `sw`, doing that
/// move, and reading `sw` in place of `y` in the others, gives the same registers but `sw`.
proof fn lemma_break_cycle<V>(sw: Seq<char>, m: Seq<Move>, s: spec_fn(Seq<char>) -> V, r: Seq<char>)
    requires
        sources_agree(m),
        !writes(m, sw),
        !reads(m, sw),
        forall|i: int| 0 <= i < m.len() ==> (#[trigger] m[i]).0 != m[i].1,
        blocked(m).len() > 0,
        within(blocked(m), m),
        forall|i: int| 0 <= i < m.len() ==> blocked(m).contains(#[trigger] m[i]),
        r != sw,
    ensures
        ({
            let cyc = blocked(m);
            let x = cyc[0].0;
            let y = cyc[0].1;
            let rest = redirect(cyc.drop_first(), y, sw);
            let s2 = step(step(s, (y, sw)), (x, y));
            &&& rest.len() < m.len()
            &&& sources_agree(rest)
            &&& !writes(rest, sw)
            &&& parallel(rest, s2)(r) == parallel(m, s)(r)
        }),
{
    let cyc = blocked(m);
    let x = cyc[0].0;
    let y = cyc[0].1;
    let d = cyc.drop_first();
    let rest = redirect(d, y, sw);
    let s2 = step(step(s, (y, sw)), (x, y));
    assert(m.contains(cyc[0]));
    let i0 = choose|i: int| 0 <= i < m.len() && m[i] == cyc[0];
    assert(x != y);
    assert(x != sw);
    assert(y != sw);
    assert forall|k: int| 0 <= k < rest.len() implies (#[trigger] rest[k]).1 == d[k].1 && (
    rest[k].0 == if d[k].0 == y {
        sw
    } else {
        d[k].0
    }) && m.contains(d[k]) by {
        assert(d[k] == cyc[k + 1]);
    }
    assert(!writes(rest, sw)) by {
        if writes(rest, sw) {
            let k = choose|k: int| 0 <= k < rest.len() && #[trigger] rest[k].1 == sw;
            let i = choose|i: int| 0 <= i < m.len() && m[i] == d[k];
            assert(m[i].1 == sw);
        }
    }
    assert(sources_agree(rest)) by {
        assert forall|k1: int, k2: int|
            0 <= k1 < rest.len() && 0 <= k2 < rest.len() && #[trigger] rest[k1].1
                == #[trigger] rest[k2].1 implies rest[k1].0 == rest[k2].0 by {
            let i1 = choose|i: int| 0 <= i < m.len() && m[i] == d[k1];
            let i2 = choose|i: int| 0 <= i < m.len() && m[i] == d[k2];
            assert(m[i1].1 == m[i2].1);
        }
    }
    assert(rest.len() < m.len()) by {
        lemma_partition_len(m, |p: Move| reads(m, p.1), |p: Move| !reads(m, p.1));
    }
    lemma_source_of(m, i0);
    if writes(rest, r) {
        let k = choose|k: int| 0 <= k < rest.len() && #[trigger] rest[k].1 == r;
        lemma_source_of(rest, k);
        let i = choose|i: int| 0 <= i < m.len() && m[i] == d[k];
        lemma_source_of(m, i);
        if d[k].0 == y {
            assert(reads(m, y));
        } else {
            assert(m[i].0 == d[k].0);
            if r == y {
                assert(m[i].0 == m[i0].0);
            }
        }
    } else if r != y {
        if writes(m, r) {
            let i = choose|i: int| 0 <= i < m.len() && #[trigger] m[i].1 == r;
            assert(cyc.contains(m[i]));
            let k = choose|k: int| 0 <= k < cyc.len() && cyc[k] == m[i];
            assert(k != 0);
            assert(rest[k - 1].1 == r);
        }
    }
}

/// The sequence of moves from `shuffle_moves`, done one by one, leaves every register but
/// the spare one as the parallel moves do.
proof fn lemma_shuffle_moves_correct<V>(
    sw: Seq<char>,
    xys: Seq<Move>,
    s: spec_fn(Seq<char>) -> V,
    r: Seq<char>,
)
    requires
        sources_agree(xys),
        !writes(xys, sw),
        r != sw,
    ensures
        run(shuffle_moves(sw, xys), s)(r) == parallel(xys, s)(r),
    decreases xys.len(),
{
    let m = real_moves(xys);
    let cyc = blocked(m);
    let acyc = ready(m);
    let pr = |p: Move| p.0 != p.1;
    let pc = |p: Move| reads(m, p.1);
    let pa = |p: Move| !reads(m, p.1);
    lemma_filter_within(xys, pr);
    lemma_within(m, xys);
    lemma_filter_within(m, pc);
    lemma_filter_within(m, pa);
    lemma_within(cyc, m);
    lemma_within(acyc, m);
    lemma_partition_len(m, pc, pa);
    lemma_real_moves(xys, s);
    assert(parallel(m, s)(r) == parallel(xys, s)(r));
    if cyc.len() == 0 && acyc.len() == 0 {
        assert(m.len() == 0);
        assert(shuffle_moves(sw, xys) =~= Seq::<Move>::empty());
    } else if acyc.len() == 0 {
        assert(cyc.len() == m.len());
        assert forall|i: int| 0 <= i < m.len() implies reads(m, #[trigger] m[i].1) by {
            if !pc(m[i]) {
                assert(acyc.contains(m[i]));
            }
        }
        lemma_cycles_read_no_spare(m, sw);
        assert forall|i: int| 0 <= i < m.len() implies (#[trigger] m[i]).0 != m[i].1 by {
            assert(xys.contains(m[i]));
            assert(pr(xys.filter(pr)[i]));
        }
        assert forall|i: int| 0 <= i < m.len() implies cyc.contains(#[trigger] m[i]) by {
            if !pc(m[i]) {
                assert(acyc.contains(m[i]));
            }
        }
        let x = cyc[0].0;
        let y = cyc[0].1;
        let rest = redirect(cyc.drop_first(), y, sw);
        assert(shuffle_moves(sw, xys) == seq![(y, sw), (x, y)] + shuffle_moves(sw, rest));
        let s2 = step(step(s, (y, sw)), (x, y));
        lemma_run_two((y, sw), (x, y), s);
        lemma_run_append(seq![(y, sw), (x, y)], shuffle_moves(sw, rest), s);
        lemma_break_cycle(sw, m, s, r);
        lemma_shuffle_moves_correct(sw, rest, s2, r);
    } else {
        assert(shuffle_moves(sw, xys) == acyc + shuffle_moves(sw, cyc));
        lemma_run_append(acyc, shuffle_moves(sw, cyc), s);
        assert forall|i: int, j: int| 0 <= i < acyc.len() && 0 <= j < acyc.len() implies #[trigger] acyc[i].1
            != #[trigger] acyc[j].0 by {
            assert(pa(acyc[i]));
            assert(m.contains(acyc[j]));
            let k = choose|k: int| 0 <= k < m.len() && m[k] == acyc[j];
            assert(m[k].0 == acyc[j].0);
        }
        lemma_run_ready(acyc, s);
        lemma_shuffle_moves_correct(sw, cyc, parallel(acyc, s), r);
        lemma_parallel_split(m, s);
    }
}

/// Register shuffling realises the parallel move: when no register is the destination of two
/// moves with different sources and the spare register `sw` is no destination, doing the
/// moves that `shuffle_moves` returns one after the other leaves every register but `sw`
/// holding what doing all moves of `xys` at once would leave there.
pub proof fn lemma_shuffle_is_parallel_move<V>(
    sw: Seq<char>,
    xys: Seq<Move>,
    s: spec_fn(Seq<char>) -> V,
    r: Seq<char>,
)
    requires
        sources_agree(xys),
        !writes(xys, sw),
        r != sw,
    ensures
        run(shuffle_moves(sw, xys), s)(r) == parallel(xys, s)(r),
{
    lemma_shuffle_moves_correct(sw, xys, s, r);
}

} // verus!
