use vstd::prelude::*;
use std::marker::PhantomData;
use rand::seq::{IteratorRandom, SliceRandom};
use rand::SeedableRng;
use rand_chacha::ChaCha8Rng;
use crate::field::{lemma_position_in_storage, unrevealed_count, Cell, CellHandle, CellState, Field};

verus! {

/// Dimensions, number of mines and seed of a board to generate.
#[derive(Debug, Clone, Copy, PartialEq, Eq, Structural)]
pub struct FieldGenerationOptions {
    pub width: usize,
    pub height: usize,
    pub mine_count: usize,
    pub seed: u64,
}

impl FieldGenerationOptions {
    pub open spec fn cell_count(&self) -> nat {
        (self.width * self.height) as nat
    }

    /// The options used when none are given: ten by ten with ten mines.
    pub open spec fn is_default(&self) -> bool {
        self.width == 10 && self.height == 10 && self.mine_count == 10
    }
}

impl Default for FieldGenerationOptions {
    /// Ten by ten with ten mines, and a seed drawn at random.
    fn default() -> (r: Self)
        ensures
            r.is_default(),
    {
        Self { mine_count: 10, seed: random_seed(), width: 10, height: 10 }
    }
}

/// Relies on `fastrand::u64(..u64::MAX)`: a number below `u64::MAX` drawn from
/// the thread's generator.
#[verifier::external_body]
fn random_seed() -> (r: u64)
    ensures
        r < u64::MAX,
{
    fastrand::u64(..u64::MAX)
}

/// Why a board could not be generated.
#[derive(Debug, Clone, Copy, PartialEq, Eq, Structural)]
pub enum GenerationError {
    /// The width or the height is zero.
    EmptyBoard,
}

/// `mines` names `min(amount, cells)` distinct cell indices below `cells`.
pub open spec fn is_mine_selection(mines: Seq<usize>, cells: nat, amount: nat) -> bool {
    &&& mines.no_duplicates()
    &&& forall|i: int| 0 <= i < mines.len() ==> #[trigger] mines[i] < cells
    &&& mines.len() == if amount < cells {
        amount
    } else {
        cells
    }
}

/// A way to choose the indices of the cells that hold mines.
pub trait RandomMineSelector {
    /// What this selector may return for `options`.
    spec fn selects(options: FieldGenerationOptions, mines: Seq<usize>) -> bool;

    fn get_mines_index(options: &FieldGenerationOptions) -> (r: Vec<usize>)
        requires
            options.width * options.height <= usize::MAX,
        ensures
            is_mine_selection(r@, options.cell_count(), options.mine_count as nat),
            Self::selects(*options, r@),
    ;
}

/// Relies on `fastrand::seed`, which reseeds the thread's generator, and on
/// `fastrand::shuffle`, which then reorders the items in place by swaps.
#[verifier::external_body]
fn seeded_shuffle(v: &mut Vec<usize>, seed: u64)
    ensures
        final(v)@.to_multiset() == old(v)@.to_multiset(),
{
    fastrand::seed(seed);
    fastrand::shuffle(v)
}

/// Shuffles all cell indices with the thread's generator seeded from the
/// options, and keeps the first `mine_count` of them.
pub struct FastRandGenerator;

impl RandomMineSelector for FastRandGenerator {
    open spec fn selects(options: FieldGenerationOptions, mines: Seq<usize>) -> bool {
        true
    }

    fn get_mines_index(options: &FieldGenerationOptions) -> (r: Vec<usize>) {
        let n = options.width * options.height;
        let mut all: Vec<usize> = Vec::with_capacity(n);
        let mut i: usize = 0;
        while i < n
            invariant
                i <= n,
                all@ == Seq::new(i as nat, |k: int| k as usize),
            decreases n - i,
        {
            all.push(i);
            assert(all@ =~= Seq::new((i + 1) as nat, |k: int| k as usize));
            i = i + 1;
        }
        proof {
            all@.lemma_multiset_has_no_duplicates();
        }
        let ghost unshuffled = all@;
        seeded_shuffle(&mut all, options.seed);
        proof {
            broadcast use vstd::seq_lib::group_to_multiset_ensures;

            all@.lemma_multiset_has_no_duplicates_conv();
            all@.to_multiset_ensures();
            unshuffled.to_multiset_ensures();
            assert(all@.len() == unshuffled.len());
            assert forall|j: int| 0 <= j < all@.len() implies #[trigger] all@[j] < n by {
                assert(all@.to_multiset().count(all@[j]) > 0);
                assert(unshuffled.contains(all@[j]));
            }
        }
        let k: usize = if options.mine_count < n { options.mine_count } else { n };
        let mut picked: Vec<usize> = Vec::with_capacity(k);
        let mut j: usize = 0;
        while j < k
            invariant
                j <= k,
                k <= all@.len(),
                picked@ == all@.take(j as int),
            decreases k - j,
        {
            picked.push(all[j]);
            assert(picked@ =~= all@.take(j + 1));
            j = j + 1;
        }
        picked
    }
}

/// What a ChaCha8 generator seeded with `seed` samples: `amount` indices
/// below `cells`, then shuffled. The selector asks for at most `cells`.
pub uninterp spec fn chacha_sample(cells: usize, amount: usize, seed: u64) -> Seq<usize>;

/// `amount` distinct indices below `cells`, in an order fixed by `seed`.
///
/// Relies on `ChaCha8Rng::seed_from_u64`, whose stream depends on the seed
/// alone, on `IteratorRandom::choose_multiple`, which picks distinct items of
/// the range (all of them when there are fewer than `amount`), and on
/// `SliceRandom::shuffle`, which reorders them; both draw from that stream only.
#[verifier::external_body]
fn chacha_pick(cells: usize, amount: usize, seed: u64) -> (r: Vec<usize>)
    requires
        amount <= cells,
    ensures
        r@ == chacha_sample(cells, amount, seed),
        is_mine_selection(r@, cells as nat, amount as nat),
{
    let mut rng = ChaCha8Rng::seed_from_u64(seed);
    let mut v: Vec<usize> = (0..cells).choose_multiple(&mut rng, amount);
    v.shuffle(&mut rng);
    v
}

/// Samples the mine indices with a ChaCha8 generator seeded from the options:
/// equal options give equal boards.
pub struct ChaChaMineSelector {}

impl RandomMineSelector for ChaChaMineSelector {
    open spec fn selects(options: FieldGenerationOptions, mines: Seq<usize>) -> bool {
        let cells = (options.width * options.height) as usize;
        mines == chacha_sample(
            cells,
            if options.mine_count < cells {
                options.mine_count
            } else {
                cells
            },
            options.seed,
        )
    }

    fn get_mines_index(options: &FieldGenerationOptions) -> (r: Vec<usize>) {
        let cells = options.width * options.height;
        let amount = if options.mine_count < cells {
            options.mine_count
        } else {
            cells
        };
        chacha_pick(cells, amount, options.seed)
    }
}

/// `f` is a fresh `width` by `height` board whose mines are the cells named
/// in `mines` (cell `(x, y)` has index `x * height + y`).
pub open spec fn is_laid_out(f: Field, width: nat, height: nat, mines: Seq<usize>) -> bool {
    &&& f.wf()
    &&& f.columns() == width
    &&& f.rows() == height
    &&& f.cells().len() == width * height
    &&& f.tracked_hidden() == width * height
    &&& forall|i: int|
        0 <= i < f.cells().len() ==> {
            &&& (#[trigger] f.cells()[i]).mine() == mines.contains(i as usize)
            &&& f.cells()[i].visibility() == CellState::Hidden
            &&& !f.cells()[i].dirty()
            &&& f.cells()[i].cached_adjacent() is None
        }
}

/// With every cell unrevealed, all of them count.
proof fn lemma_all_unrevealed(s: Seq<Cell>)
    requires
        forall|i: int| 0 <= i < s.len() ==> (#[trigger] s[i]).visibility() != CellState::Revealed,
    ensures
        unrevealed_count(s) == s.len(),
    decreases s.len(),
{
    if s.len() > 0 {
        lemma_all_unrevealed(s.drop_last());
    }
}

/// Which cells of a board hold mines, in storage order.
pub open spec fn mine_layout(f: Field) -> Seq<bool> {
    f.cells().map_values(|c: Cell| c.mine())
}

/// `r` is what generating a board from `options` with selector `M` gives.
pub open spec fn is_generated<M: RandomMineSelector>(
    options: FieldGenerationOptions,
    r: Result<Field, GenerationError>,
) -> bool {
    if options.width == 0 || options.height == 0 {
        r == Err::<Field, GenerationError>(GenerationError::EmptyBoard)
    } else {
        &&& r is Ok
        &&& exists|mines: Seq<usize>|
            M::selects(options, mines) && is_mine_selection(
                mines,
                options.cell_count(),
                options.mine_count as nat,
            ) && is_laid_out(r->Ok_0, options.width as nat, options.height as nat, mines)
    }
}

fn contains_index(mines: &Vec<usize>, i: usize) -> (r: bool)
    ensures
        r == mines@.contains(i),
{
    let mut j: usize = 0;
    while j < mines.len()
        invariant
            j <= mines@.len(),
            forall|k: int| 0 <= k < j ==> mines@[k] != i,
        decreases mines@.len() - j,
    {
        if mines[j] == i {
            return true;
        }
        j = j + 1;
    }
    false
}

/// A fresh `width` by `height` board, all cells hidden, with mines on the
/// cells whose indices `mines` names; indices past the board are ignored.
pub fn lay_out(width: usize, height: usize, mines: &Vec<usize>) -> (r: Field)
    requires
        width * height <= usize::MAX,
    ensures
        is_laid_out(r, width as nat, height as nat, mines@),
{
    let n = width * height;
    let mut elements: Vec<Cell> = Vec::with_capacity(n);
    let mut i: usize = 0;
    while i < n
        invariant
            i <= n,
            n == width * height,
            elements@.len() == i,
            forall|k: int|
                0 <= k < i ==> {
                    &&& (#[trigger] elements@[k]).mine() == mines@.contains(k as usize)
                    &&& elements@[k].visibility() == CellState::Hidden
                    &&& !elements@[k].dirty()
                },
        decreases n - i,
    {
        let mut cell = Cell::new();
        if contains_index(mines, i) {
            cell.set_mine(true);
        }
        elements.push(cell);
        i = i + 1;
    }
    proof {
        lemma_all_unrevealed(elements@);
    }
    Field::new(width, height, elements)
}

/// Builds boards with the mine selector `M`.
pub struct FieldGenerator<M: RandomMineSelector>(PhantomData<M>);

/// The generator whose boards are reproducible from their seed.
pub type DefaultFieldGenerator = FieldGenerator<ChaChaMineSelector>;

impl<M: RandomMineSelector> FieldGenerator<M> {
    /// A fresh board for `options` (ten by ten with ten mines and a random
    /// seed when there are none). The mines are `min(mine_count, width *
    /// height)` distinct cells chosen by `M`; a board without cells is refused.
    pub fn generate(options: Option<FieldGenerationOptions>) -> (r: Result<
        Field,
        GenerationError,
    >)
        requires
            options matches Some(o) ==> o.width * o.height <= usize::MAX,
        ensures
            match options {
                Some(o) => is_generated::<M>(o, r),
                None => exists|o: FieldGenerationOptions|
                    o.is_default() && #[trigger] is_generated::<M>(o, r),
            },
    {
        let options = match options {
            Some(o) => o,
            None => FieldGenerationOptions::default(),
        };
        if options.width == 0 || options.height == 0 {
            return Err(GenerationError::EmptyBoard);
        }
        let mines = M::get_mines_index(&options);
        let f = lay_out(options.width, options.height, &mines);
        let r = Ok(f);
        assert(M::selects(options, mines@) && is_mine_selection(
            mines@,
            options.cell_count(),
            options.mine_count as nat,
        ) && is_laid_out(r->Ok_0, options.width as nat, options.height as nat, mines@));
        assert(is_generated::<M>(options, r));
        r
    }
}

/// Generation with the default selector is deterministic: equal options
/// (dimensions, mine count and seed) give boards with the same mines.
pub proof fn lemma_generation_is_deterministic(
    o1: FieldGenerationOptions,
    o2: FieldGenerationOptions,
    r1: Result<Field, GenerationError>,
    r2: Result<Field, GenerationError>,
)
    requires
        o1 == o2,
        is_generated::<ChaChaMineSelector>(o1, r1),
        is_generated::<ChaChaMineSelector>(o2, r2),
    ensures
        r1 is Ok <==> r2 is Ok,
        r1 is Ok ==> mine_layout(r1->Ok_0) == mine_layout(r2->Ok_0),
        r1 is Ok ==> (r1->Ok_0).same_layout(&r2->Ok_0),
{
    if r1 is Ok {
        let (f1, f2) = (r1->Ok_0, r2->Ok_0);
        assert(mine_layout(f1) =~= mine_layout(f2));
        assert forall|c: CellHandle| f1.contains(c) implies (#[trigger] f1.cell_at(c)).mine()
            == f2.cell_at(c).mine() by {
            lemma_position_in_storage(f1, c);
            assert(mine_layout(f1)[f1.index_of(c)] == mine_layout(f2)[f2.index_of(c)]);
        }
    }
}

} // verus!
