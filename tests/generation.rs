use minesweeper::field::{CellHandle, CellState, Field};
use minesweeper::generate::{
    lay_out, ChaChaMineSelector, DefaultFieldGenerator, FastRandGenerator, FieldGenerationOptions,
    FieldGenerator, GenerationError, RandomMineSelector,
};

fn mines_of(f: &Field) -> Vec<bool> {
    let mut v = Vec::new();
    for x in 0..f.width {
        for y in 0..f.height {
            v.push(f.cell(CellHandle::new(x, y)).is_mine);
        }
    }
    v
}

fn options(width: usize, height: usize, mine_count: usize, seed: u64) -> FieldGenerationOptions {
    FieldGenerationOptions { width, height, mine_count, seed }
}

fn check_selection(sel: &[usize], cells: usize, amount: usize) {
    assert_eq!(sel.len(), amount.min(cells));
    for (i, a) in sel.iter().enumerate() {
        assert!(*a < cells);
        assert!(!sel[i + 1..].contains(a));
    }
}

#[test]
fn default_options_are_ten_by_ten_with_ten_mines() {
    let o = FieldGenerationOptions::default();
    assert_eq!((o.width, o.height, o.mine_count), (10, 10, 10));
    assert!(o.seed < u64::MAX);
}

#[test]
fn generate_without_options_uses_defaults() {
    let f = DefaultFieldGenerator::generate(None).unwrap();
    assert_eq!((f.width, f.height), (10, 10));
    assert_eq!(mines_of(&f).iter().filter(|&&m| m).count(), 10);
    assert_eq!(f.hidden_count(), 100);
}

#[test]
fn generation_is_deterministic() {
    let o = options(12, 9, 20, 42);
    let a = DefaultFieldGenerator::generate(Some(o.clone())).unwrap();
    let b = DefaultFieldGenerator::generate(Some(o)).unwrap();
    assert_eq!(mines_of(&a), mines_of(&b));
    assert_eq!(mines_of(&a).iter().filter(|&&m| m).count(), 20);
}

#[test]
fn chacha_selection_depends_on_the_seed() {
    let a = ChaChaMineSelector::get_mines_index(&options(10, 10, 30, 1));
    let b = ChaChaMineSelector::get_mines_index(&options(10, 10, 30, 1));
    let c = ChaChaMineSelector::get_mines_index(&options(10, 10, 30, 2));
    assert_eq!(a, b);
    assert_ne!(a, c);
    check_selection(&a, 100, 30);
    check_selection(&c, 100, 30);
}

#[test]
fn mine_count_is_clamped_to_the_board() {
    let f = DefaultFieldGenerator::generate(Some(options(3, 2, 50, 7))).unwrap();
    assert!(mines_of(&f).iter().all(|&m| m));
    assert_eq!(f.hidden_count(), 6);
    assert!(f.is_won());
}

#[test]
fn zero_sized_board_is_refused() {
    assert!(matches!(
        DefaultFieldGenerator::generate(Some(options(0, 5, 1, 0))),
        Err(GenerationError::EmptyBoard)
    ));
    assert!(matches!(
        FieldGenerator::<FastRandGenerator>::generate(Some(options(4, 0, 1, 0))),
        Err(GenerationError::EmptyBoard)
    ));
}

#[test]
fn fresh_board_is_hidden_and_unchanged() {
    let f = DefaultFieldGenerator::generate(Some(options(5, 4, 3, 9))).unwrap();
    for c in f.get_handles() {
        assert_eq!(*f.cell(c).get_state(), CellState::Hidden);
        assert!(!f.cell(c).is_dirty);
    }
    assert_eq!(f.hidden_count(), 20);
}

#[test]
fn fastrand_selection_is_valid_and_seeded() {
    let a = FastRandGenerator::get_mines_index(&options(6, 7, 10, 5));
    let b = FastRandGenerator::get_mines_index(&options(6, 7, 10, 5));
    check_selection(&a, 42, 10);
    assert_eq!(a, b);
    let all = FastRandGenerator::get_mines_index(&options(3, 3, 20, 5));
    check_selection(&all, 9, 20);
    let f = FieldGenerator::<FastRandGenerator>::generate(Some(options(6, 7, 10, 5))).unwrap();
    assert_eq!(mines_of(&f).iter().filter(|&&m| m).count(), 10);
}

#[test]
fn huge_mine_count_is_clamped() {
    let a = ChaChaMineSelector::get_mines_index(&options(10, 10, usize::MAX, 3));
    check_selection(&a, 100, usize::MAX);
    let b = FastRandGenerator::get_mines_index(&options(10, 10, usize::MAX, 3));
    check_selection(&b, 100, usize::MAX);
    let f = DefaultFieldGenerator::generate(Some(options(4, 4, usize::MAX, 3))).unwrap();
    assert!(f.is_won());
}

#[test]
fn lay_out_places_mines_by_index_and_ignores_others() {
    let f = lay_out(3, 2, &vec![1, 4, 4, 99]);
    assert_eq!(mines_of(&f), vec![false, true, false, false, true, false]);
    assert!(f.cell(CellHandle::new(0, 1)).is_mine);
    assert!(f.cell(CellHandle::new(2, 0)).is_mine);
    assert_eq!(f.hidden_count(), 6);
}
