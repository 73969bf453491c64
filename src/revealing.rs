use vstd::prelude::*;
use crate::field::{is_adjacent, lemma_tracked_hidden, lemma_hidden_safe_drop, lemma_opened_none, opened_count, lemma_same_layout_adjacent, lemma_zero_adjacent, CellHandle, Field, RevealResult};

verus! {

/// `c` was opened on the way from `before` to `after`.
pub open spec fn newly_revealed(before: Field, after: Field, c: CellHandle) -> bool {
    !before.is_revealed(c) && after.is_revealed(c)
}

/// Every cell that was not opened is exactly as it was.
pub open spec fn keeps_unopened(before: Field, after: Field) -> bool {
    forall|c: CellHandle|
        after.contains(c) && !newly_revealed(before, after, c) ==> #[trigger] after.cell_at(c)
            == before.cell_at(c)
}

/// `chain` leads from next to `origin` to `c`, one adjacent cell at a time,
/// through cells that the cascade opened and that have no mine around.
pub open spec fn is_opening_chain(
    before: Field,
    after: Field,
    origin: CellHandle,
    chain: Seq<CellHandle>,
    c: CellHandle,
) -> bool {
    &&& chain.len() > 0
    &&& chain.last() == c
    &&& is_adjacent(origin, chain[0])
    &&& forall|k: int|
        0 <= k < chain.len() - 1 ==> {
            &&& is_adjacent(#[trigger] chain[k], chain[k + 1])
            &&& after.contains(chain[k])
            &&& newly_revealed(before, after, chain[k])
            &&& before.adjacent_mines_of(chain[k]) == 0
        }
}

/// Every opened cell is safe, marked changed, holds its memoized adjacency
/// count, and is reached from the origin by a chain of opened cells with no
/// mine around.
pub open spec fn opens_safely(before: Field, after: Field, origin: CellHandle) -> bool {
    forall|c: CellHandle|
        after.contains(c) && #[trigger] newly_revealed(before, after, c) ==> {
            &&& !after.cell_at(c).mine()
            &&& after.cell_at(c).dirty()
            &&& after.cell_at(c).cached_adjacent() is Some
            &&& after.cell_at(c).cached_adjacent().unwrap() == before.adjacent_mines_of(c)
            &&& exists|chain: Seq<CellHandle>| is_opening_chain(before, after, origin, chain, c)
        }
}

/// Every opened cell with no mine around has all its neighbours revealed.
pub open spec fn spreads_from_zeros(before: Field, after: Field) -> bool {
    forall|c: CellHandle, m: CellHandle|
        after.contains(c) && after.contains(m) && #[trigger] is_adjacent(c, m) && newly_revealed(
            before,
            after,
            c,
        ) && before.adjacent_mines_of(c) == 0 ==> after.is_revealed(m)
}

/// `after` is `before` once the cascade from `origin` has run.
pub open spec fn cascade_result(before: Field, after: Field, origin: CellHandle) -> bool {
    &&& after.wf()
    &&& after.same_layout(&before)
    &&& before.hidden_safe() == after.hidden_safe() + opened_count(before.cells(), after.cells())
    &&& after.mines_hidden_at_start() == before.mines_hidden_at_start()
    &&& before.tracked_hidden() == after.tracked_hidden() + opened_count(
        before.cells(),
        after.cells(),
    )
    &&& keeps_unopened(before, after)
    &&& opens_safely(before, after, origin)
    &&& spreads_from_zeros(before, after)
    &&& before.adjacent_mines_of(origin) > 0 ==> after == before
    &&& before.adjacent_mines_of(origin) == 0 ==> forall|m: CellHandle| #[trigger]
        after.neighbors_of(origin).contains(m) ==> after.is_revealed(m)
}

/// Opens the region around a safe cell that was just revealed.
pub trait Revealer {
    fn reveal_area(field: &mut Field, handle: CellHandle)
        requires
            old(field).wf(),
            old(field).contains(handle),
        ensures
            cascade_result(*old(field), *final(field), handle),
    ;
}

pub struct RevealerImpl;

impl Revealer for RevealerImpl {
    fn reveal_area(field: &mut Field, handle: CellHandle) {
        cascade(field, handle)
    }
}

/// Unless a neighbour of `handle` is a mine, opens every neighbour; each one
/// with no mine around is then the origin of a cascade of its own.
fn cascade(field: &mut Field, handle: CellHandle)
    requires
        old(field).wf(),
        old(field).contains(handle),
    ensures
        cascade_result(*old(field), *final(field), handle),
    decreases old(field).hidden_safe(),
{
    let neighbors = field.get_neighbors(handle);
    let mut any_mine = false;
    let mut i: usize = 0;
    while i < neighbors.len()
        invariant
            field.wf(),
            *field == *old(field),
            i <= neighbors@.len(),
            forall|b: CellHandle| #[trigger]
                neighbors@.contains(b) <==> field.neighbors_of(handle).contains(b),
            any_mine <==> exists|j: int| 0 <= j < i && field.cell_at(#[trigger] neighbors@[j]).mine(),
        decreases neighbors@.len() - i,
    {
        assert(neighbors@.contains(neighbors@[i as int]));
        if field.cell(neighbors[i]).is_mine() {
            any_mine = true;
        }
        i = i + 1;
    }
    proof {
        lemma_zero_adjacent(*field, handle, neighbors@);
    }
    if any_mine {
        proof {
            let j = choose|j: int| 0 <= j < i && field.cell_at(#[trigger] neighbors@[j]).mine();
            assert(neighbors@.contains(neighbors@[j]));
            assert(keeps_unopened(*field, *field));
            lemma_opened_none(field.cells());
        }
        return ;
    }
    assert forall|b: CellHandle| #[trigger]
        field.neighbors_of(handle).contains(b) implies !field.cell_at(b).mine() by {
        assert(neighbors@.contains(b));
        let k = choose|k: int| 0 <= k < neighbors@.len() && neighbors@[k] == b;
        assert(!field.cell_at(neighbors@[k]).mine());
    }
    let ghost before = *field;
    let mut i: usize = 0;
    while i < neighbors.len()
        invariant
            before == *old(field),
            before.wf(),
            before.contains(handle),
            before.adjacent_mines_of(handle) == 0,
            forall|b: CellHandle| #[trigger]
                neighbors@.contains(b) <==> before.neighbors_of(handle).contains(b),
            forall|b: CellHandle| #[trigger]
                before.neighbors_of(handle).contains(b) ==> !before.cell_at(b).mine(),
            i <= neighbors@.len(),
            field.wf(),
            field.same_layout(&before),
            field.hidden_safe() <= before.hidden_safe(),
            field.mines_hidden_at_start() == before.mines_hidden_at_start(),
            keeps_unopened(before, *field),
            opens_safely(before, *field, handle),
            spreads_from_zeros(before, *field),
            forall|j: int| 0 <= j < i ==> field.is_revealed(#[trigger] neighbors@[j]),
        decreases neighbors@.len() - i,
    {
        let n = neighbors[i];
        assert(neighbors@.contains(n));
        let ghost cur = *field;
        match field.try_reveal(n) {
            RevealResult::Mine => {
                assert(before.neighbors_of(handle).contains(n));
            },
            RevealResult::Empty(0) => {
                let _ = field.reveal_cell(n);
                let ghost mid = *field;
                cascade(field, n);
                proof {
                    lemma_step(before, cur, mid, *field, handle, n);
                }
            },
            RevealResult::AlreadyRevealed => {},
            RevealResult::Empty(_) => {
                let _ = field.reveal_cell(n);
                proof {
                    assert(keeps_unopened(*field, *field));
                    lemma_opened_none(field.cells());
                    lemma_same_layout_adjacent(*field, cur, n);
                    lemma_step(before, cur, *field, *field, handle, n);
                }
            },
        }
        assert forall|j: int| 0 <= j < i + 1 implies field.is_revealed(#[trigger] neighbors@[j]) by {
            assert(neighbors@.contains(neighbors@[j]));
            if j < i {
                assert(cur.is_revealed(neighbors@[j]));
                assert(cur.contains(neighbors@[j]));
            }
        }
        i = i + 1;
    }
    proof {
        assert forall|c: CellHandle|
            before.contains(c) && #[trigger] before.is_revealed(c) implies field.is_revealed(c) by {
            lemma_persists(before, *field, c);
        }
        assert forall|c: CellHandle|
            before.contains(c) && !before.is_revealed(c) && #[trigger] field.is_revealed(c) implies !before.cell_at(c).mine() by {
            assert(newly_revealed(before, *field, c));
        }
        lemma_hidden_safe_drop(before, *field);
        lemma_tracked_hidden(before);
        lemma_tracked_hidden(*field);
    }
    assert forall|m: CellHandle| #[trigger]
        field.neighbors_of(handle).contains(m) implies field.is_revealed(m) by {
        assert(neighbors@.contains(m));
        let k = choose|k: int| 0 <= k < neighbors@.len() && neighbors@[k] == m;
        assert(field.is_revealed(neighbors@[k]));
    }
}

/// The cascade keeps every revealed cell revealed and opens at least the
/// region of cells with no adjacent mine that is connected to the origin:
/// along any chain of such cells, hidden before the cascade and starting next
/// to the origin, every cell of the chain and every neighbour of one ends up
/// revealed, as does every neighbour of the origin.
pub proof fn lemma_cascade_covers_zero_region(
    before: Field,
    after: Field,
    origin: CellHandle,
    path: Seq<CellHandle>,
)
    requires
        cascade_result(before, after, origin),
        before.contains(origin),
        before.adjacent_mines_of(origin) == 0,
        forall|k: int|
            0 <= k < path.len() ==> before.contains(#[trigger] path[k]) && !before.is_revealed(
                path[k],
            ) && before.adjacent_mines_of(path[k]) == 0,
        path.len() > 0 ==> is_adjacent(origin, path[0]),
        forall|k: int| 0 <= k < path.len() - 1 ==> is_adjacent(#[trigger] path[k], path[k + 1]),
    ensures
        forall|c: CellHandle| before.contains(c) && #[trigger] before.is_revealed(c) ==> after.is_revealed(c),
        forall|c: CellHandle| before.contains(c) && #[trigger] is_adjacent(origin, c) ==> after.is_revealed(c),
        forall|k: int| 0 <= k < path.len() ==> after.is_revealed(#[trigger] path[k]),
        forall|k: int, m: CellHandle|
            0 <= k < path.len() && before.contains(m) && #[trigger] is_adjacent(path[k], m)
                ==> after.is_revealed(m),
{
    assert forall|c: CellHandle| before.contains(c) && #[trigger] before.is_revealed(c) implies after.is_revealed(c) by {
        lemma_persists(before, after, c);
    }
    assert forall|c: CellHandle| before.contains(c) && #[trigger] is_adjacent(origin, c) implies after.is_revealed(c) by {
        assert(after.neighbors_of(origin).contains(c));
    }
    lemma_chain_revealed(before, after, origin, path, path.len() as int);
    assert forall|k: int, m: CellHandle|
        0 <= k < path.len() && before.contains(m) && #[trigger] is_adjacent(path[k], m) implies after.is_revealed(m) by {
        assert(after.is_revealed(path[k]));
        assert(newly_revealed(before, after, path[k]));
    }
}

proof fn lemma_chain_revealed(before: Field, after: Field, origin: CellHandle, path: Seq<CellHandle>, n: int)
    requires
        0 <= n <= path.len(),
        cascade_result(before, after, origin),
        before.contains(origin),
        before.adjacent_mines_of(origin) == 0,
        forall|k: int|
            0 <= k < path.len() ==> before.contains(#[trigger] path[k]) && !before.is_revealed(
                path[k],
            ) && before.adjacent_mines_of(path[k]) == 0,
        path.len() > 0 ==> is_adjacent(origin, path[0]),
        forall|k: int| 0 <= k < path.len() - 1 ==> is_adjacent(#[trigger] path[k], path[k + 1]),
    ensures
        forall|k: int| 0 <= k < n ==> after.is_revealed(#[trigger] path[k]),
    decreases n,
{
    if n > 0 {
        lemma_chain_revealed(before, after, origin, path, n - 1);
        let k = n - 1;
        if k == 0 {
            assert(after.neighbors_of(origin).contains(path[0]));
        } else {
            assert(is_adjacent(path[k - 1], path[k]));
            assert(after.is_revealed(path[k - 1]));
            assert(newly_revealed(before, after, path[k - 1]));
        }
    }
}

/// The cascade's result does not depend on the order in which the region is
/// explored: any two boards that a cascade from `origin` on `before` may leave
/// show the same thing in every cell.
pub proof fn lemma_cascade_result_is_unique(
    before: Field,
    a1: Field,
    a2: Field,
    origin: CellHandle,
)
    requires
        cascade_result(before, a1, origin),
        cascade_result(before, a2, origin),
    ensures
        forall|c: CellHandle| a1.contains(c) ==> #[trigger] a1.same_cell(&a2, c),
{
    lemma_opened_in_both(before, a1, a2, origin);
    lemma_opened_in_both(before, a2, a1, origin);
    assert forall|c: CellHandle| a1.contains(c) implies #[trigger] a1.same_cell(&a2, c) by {
        if newly_revealed(before, a1, c) {
            assert(a2.is_revealed(c));
            assert(newly_revealed(before, a2, c));
        } else if newly_revealed(before, a2, c) {
            assert(a1.is_revealed(c));
        } else {
            assert(a1.cell_at(c) == before.cell_at(c));
            assert(a2.cell_at(c) == before.cell_at(c));
        }
    }
}

/// What one cascade from `origin` opens, another one opens too.
proof fn lemma_opened_in_both(before: Field, a1: Field, a2: Field, origin: CellHandle)
    requires
        cascade_result(before, a1, origin),
        cascade_result(before, a2, origin),
    ensures
        forall|c: CellHandle| a1.contains(c) && #[trigger] newly_revealed(before, a1, c) ==> a2.is_revealed(c),
{
    assert forall|c: CellHandle| a1.contains(c) && #[trigger] newly_revealed(before, a1, c) implies a2.is_revealed(c) by {
        assert(before.adjacent_mines_of(origin) == 0);
        let chain = choose|chain: Seq<CellHandle>| is_opening_chain(before, a1, origin, chain, c);
        lemma_chain_opened(before, a1, a2, origin, chain, c, chain.len() as int);
        assert(a2.is_revealed(chain[chain.len() - 1]));
    }
}

proof fn lemma_chain_opened(
    before: Field,
    a1: Field,
    a2: Field,
    origin: CellHandle,
    chain: Seq<CellHandle>,
    c: CellHandle,
    n: int,
)
    requires
        cascade_result(before, a1, origin),
        cascade_result(before, a2, origin),
        before.adjacent_mines_of(origin) == 0,
        is_opening_chain(before, a1, origin, chain, c),
        a1.contains(c),
        0 <= n <= chain.len(),
    ensures
        forall|k: int| 0 <= k < n ==> a2.is_revealed(#[trigger] chain[k]),
    decreases n,
{
    if n > 0 {
        lemma_chain_opened(before, a1, a2, origin, chain, c, n - 1);
        let k = n - 1;
        assert(a2.contains(chain[k])) by {
            if k < chain.len() - 1 {
                assert(a1.contains(chain[k]));
            }
        }
        if k == 0 {
            assert(a2.neighbors_of(origin).contains(chain[0]));
        } else {
            let j = k - 1;
            assert(is_adjacent(chain[j], chain[j + 1]));
            assert(a2.is_revealed(chain[j]));
            assert(newly_revealed(before, a1, chain[j]));
            assert(newly_revealed(before, a2, chain[j]));
        }
    }
}

/// A cell revealed before a step that keeps unopened cells stays as it was.
proof fn lemma_persists(x: Field, y: Field, c: CellHandle)
    requires
        keeps_unopened(x, y),
        y.contains(c),
        x.is_revealed(c),
    ensures
        y.cell_at(c) == x.cell_at(c),
        y.is_revealed(c),
{
    assert(!newly_revealed(x, y, c));
}

proof fn lemma_layout_trans(x: Field, y: Field, z: Field)
    requires
        x.same_layout(&y),
        y.same_layout(&z),
    ensures
        x.same_layout(&z),
{
    assert forall|c: CellHandle| x.contains(c) implies (#[trigger] x.cell_at(c)).mine()
        == z.cell_at(c).mine() by {
        assert(y.contains(c));
    }
}

/// Both boards have the same adjacency count everywhere.
proof fn lemma_counts_agree(x: Field, y: Field)
    requires
        x.same_layout(&y),
    ensures
        forall|c: CellHandle| #[trigger] x.adjacent_mines_of(c) == y.adjacent_mines_of(c),
{
    assert forall|c: CellHandle| #[trigger] x.adjacent_mines_of(c) == y.adjacent_mines_of(c) by {
        lemma_same_layout_adjacent(x, y, c);
    }
}

/// One iteration of the cascade's loop: `n`, a hidden safe neighbour of the
/// origin, is revealed (`cur` to `mid`), then the cascade from `n` runs
/// (`mid` to `after`); what held of the cells opened so far still holds.
proof fn lemma_step(
    before: Field,
    cur: Field,
    mid: Field,
    after: Field,
    origin: CellHandle,
    n: CellHandle,
)
    requires
        before.wf(),
        before.contains(origin),
        before.adjacent_mines_of(origin) == 0,
        before.contains(n),
        is_adjacent(origin, n),
        cur.wf(),
        cur.same_layout(&before),
        keeps_unopened(before, cur),
        opens_safely(before, cur, origin),
        spreads_from_zeros(before, cur),
        !cur.is_revealed(n),
        !cur.cell_at(n).mine(),
        mid.wf(),
        mid.same_layout(&cur),
        mid.same_except(&cur, n),
        mid.is_revealed(n),
        mid.cell_at(n).dirty(),
        mid.cell_at(n).cached_adjacent() is Some,
        mid.cell_at(n).cached_adjacent().unwrap() == cur.adjacent_mines_of(n),
        cascade_result(mid, after, n),
    ensures
        after.wf(),
        after.same_layout(&before),
        keeps_unopened(before, after),
        opens_safely(before, after, origin),
        spreads_from_zeros(before, after),
        after.is_revealed(n),
        forall|b: CellHandle| cur.contains(b) && #[trigger] cur.is_revealed(b) ==> after.is_revealed(b),
{
    lemma_layout_trans(mid, cur, before);
    lemma_layout_trans(after, mid, before);
    lemma_counts_agree(mid, before);
    lemma_counts_agree(after, before);
    lemma_counts_agree(cur, before);
    assert(keeps_unopened(cur, mid));
    lemma_persists(mid, after, n);
    assert(!before.is_revealed(n)) by {
        if before.is_revealed(n) {
            lemma_persists(before, cur, n);
        }
    }
    assert forall|b: CellHandle| cur.contains(b) && #[trigger] cur.is_revealed(b) implies after.is_revealed(b) by {
        lemma_persists(cur, mid, b);
        lemma_persists(mid, after, b);
    }
    // an unrevealed cell of `mid` other than `n`: unrevealed and unchanged since `before`
    assert forall|c: CellHandle| after.contains(c) && !mid.is_revealed(c) implies
        #[trigger] mid.cell_at(c) == before.cell_at(c) && !before.is_revealed(c) by {
        assert(c != n);
        assert(mid.cell_at(c) == cur.cell_at(c));
        if before.is_revealed(c) {
            lemma_persists(before, cur, c);
        }
    }
    assert forall|c: CellHandle| after.contains(c) && !newly_revealed(before, after, c) implies
        #[trigger] after.cell_at(c) == before.cell_at(c) by {
        if before.is_revealed(c) {
            lemma_persists(before, cur, c);
            lemma_persists(cur, mid, c);
            lemma_persists(mid, after, c);
        } else {
            if mid.is_revealed(c) {
                lemma_persists(mid, after, c);
            }
            assert(!mid.is_revealed(c));
            assert(!newly_revealed(mid, after, c));
        }
    }
    // a cell of `mid` left unrevealed was unrevealed from the start
    assert forall|c: CellHandle| after.contains(c) && #[trigger] newly_revealed(mid, after, c) implies
        newly_revealed(before, after, c) by {
        assert(!mid.is_revealed(c));
    }
    assert forall|c: CellHandle| after.contains(c) && #[trigger] newly_revealed(before, after, c) implies {
        &&& !after.cell_at(c).mine()
        &&& after.cell_at(c).dirty()
        &&& after.cell_at(c).cached_adjacent() is Some
        &&& after.cell_at(c).cached_adjacent().unwrap() == before.adjacent_mines_of(c)
        &&& exists|chain: Seq<CellHandle>| is_opening_chain(before, after, origin, chain, c)
    } by {
        if cur.is_revealed(c) {
            assert(newly_revealed(before, cur, c));
            lemma_persists(cur, mid, c);
            lemma_persists(mid, after, c);
            let chain = choose|chain: Seq<CellHandle>| is_opening_chain(before, cur, origin, chain, c);
            assert forall|k: int| 0 <= k < chain.len() - 1 implies newly_revealed(
                before,
                after,
                #[trigger] chain[k],
            ) by {
                assert(newly_revealed(before, cur, chain[k]));
                assert(cur.contains(chain[k]));
                lemma_persists(cur, mid, chain[k]);
                lemma_persists(mid, after, chain[k]);
            }
            assert(is_opening_chain(before, after, origin, chain, c));
        } else if c == n {
            let chain = seq![n];
            assert(is_opening_chain(before, after, origin, chain, c));
        } else {
            assert(mid.cell_at(c) == cur.cell_at(c));
            assert(newly_revealed(mid, after, c));
            assert(mid.adjacent_mines_of(n) == 0);
            let inner = choose|chain: Seq<CellHandle>| is_opening_chain(mid, after, n, chain, c);
            let chain = seq![n] + inner;
            assert forall|k: int| 0 <= k < chain.len() - 1 implies {
                &&& is_adjacent(#[trigger] chain[k], chain[k + 1])
                &&& after.contains(chain[k])
                &&& newly_revealed(before, after, chain[k])
                &&& before.adjacent_mines_of(chain[k]) == 0
            } by {
                if k > 0 {
                    assert(chain[k] == inner[k - 1]);
                    assert(chain[k + 1] == inner[k - 1 + 1]);
                    assert(is_adjacent(inner[k - 1], inner[k - 1 + 1]));
                    assert(newly_revealed(mid, after, inner[k - 1]));
                }
            }
            assert(is_opening_chain(before, after, origin, chain, c));
        }
    }
    assert forall|c: CellHandle, m: CellHandle|
        after.contains(c) && after.contains(m) && #[trigger] is_adjacent(c, m) && newly_revealed(
            before,
            after,
            c,
        ) && before.adjacent_mines_of(c) == 0 implies after.is_revealed(m) by {
        if cur.is_revealed(c) {
            assert(newly_revealed(before, cur, c));
            assert(cur.is_revealed(m));
            lemma_persists(cur, mid, m);
            lemma_persists(mid, after, m);
        } else if c == n {
            assert(after.neighbors_of(n).contains(m));
        } else {
            assert(mid.cell_at(c) == cur.cell_at(c));
            assert(newly_revealed(mid, after, c));
        }
    }
}

} // verus!
