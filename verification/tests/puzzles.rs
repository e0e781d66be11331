use iot_structures::knapsack::{Backtracking, DynamicProgramming, Item, Knapsack};
use iot_structures::nqueens::ChessBoard;

fn five_items() -> Vec<Item> {
    vec![
        Item {
            value: 10,
            weight: 3,
        },
        Item {
            value: 5,
            weight: 1,
        },
        Item {
            value: 5,
            weight: 1,
        },
        Item {
            value: 5,
            weight: 1,
        },
        Item {
            value: 5,
            weight: 1,
        },
    ]
}

#[test]
fn test_knapsack_5() {
    let knapsack = Knapsack::new(5);
    let items = five_items();

    assert_eq!(Backtracking::fill(&knapsack, items.iter().collect()), 20)
}

#[test]
fn test_knapsackdp_5() {
    let knapsack = Knapsack::new(5);
    let items = five_items();

    assert_eq!(DynamicProgramming::fill(&knapsack, items.iter().collect()), 20)
}

#[test]
fn knapsack_edges() {
    let items = five_items();
    for (capacity, best) in [(0usize, 0u64), (1, 5), (2, 10), (3, 15), (4, 20), (6, 25), (7, 30), (100, 30)] {
        let knapsack = Knapsack::new(capacity);
        assert_eq!(Backtracking::fill(&knapsack, items.iter().collect()), best);
        assert_eq!(DynamicProgramming::fill(&knapsack, items.iter().collect()), best);
    }
    let knapsack = Knapsack::new(5);
    assert_eq!(Backtracking::fill(&knapsack, vec![]), 0);
    assert_eq!(DynamicProgramming::fill(&knapsack, vec![]), 0);
    let heavy = Item { value: 9, weight: 6 };
    assert_eq!(Backtracking::fill(&knapsack, vec![&heavy]), 0);
    assert_eq!(DynamicProgramming::fill(&knapsack, vec![&heavy]), 0);
    assert_eq!(knapsack.fill_r(&[&heavy], 0), 0);
    assert_eq!(knapsack.fill_r(&[&heavy], 6), i64::MIN);
    assert_eq!(knapsack.fill_r(&[], 5), 0);
}

#[test]
fn knapsack_items_without_weight() {
    // the search leaves out an item that weighs nothing once the knapsack is full, and the
    // table counts nothing for what is left of a knapsack that is full
    let free = Item { value: 7, weight: 0 };
    let full = Item { value: 1, weight: 5 };
    let knapsack = Knapsack::new(5);
    assert_eq!(Backtracking::fill(&knapsack, vec![&free, &full]), 8);
    assert_eq!(Backtracking::fill(&knapsack, vec![&full, &free]), 7);
    assert_eq!(DynamicProgramming::fill(&knapsack, vec![&free, &full]), 7);
    assert_eq!(DynamicProgramming::fill(&knapsack, vec![&full, &free]), 8);
    let none = Knapsack::new(0);
    assert_eq!(Backtracking::fill(&none, vec![&free]), 0);
    assert_eq!(DynamicProgramming::fill(&none, vec![&free]), 0);
}

#[test]
fn test_4_queens() {
    let mut board = ChessBoard::new(4);
    board.place_queens();

    assert_eq!(
        board.queen_coordinates(),
        vec![(0, 2), (1, 0), (2, 3), (3, 1)]
    )
}

#[test]
fn test_8_queens() {
    let mut board = ChessBoard::new(8);
    board.place_queens();

    assert_eq!(
        board.queen_coordinates(),
        vec![
            (0, 0),
            (1, 6),
            (2, 4),
            (3, 7),
            (4, 1),
            (5, 3),
            (6, 5),
            (7, 2)
        ]
    )
}

#[test]
fn queens_on_small_boards() {
    let mut none = ChessBoard::new(0);
    assert!(none.place_queens());
    assert!(none.queen_coordinates().is_empty());
    let mut one = ChessBoard::new(1);
    assert!(one.place_queens());
    assert_eq!(one.queen_coordinates(), vec![(0, 0)]);
    for n in [2usize, 3] {
        let mut board = ChessBoard::new(n);
        assert!(!board.place_queens());
        assert!(board.queen_coordinates().is_empty());
    }
    for n in [4usize, 5, 6, 7] {
        let mut board = ChessBoard::new(n);
        assert!(board.place_queens());
        let queens = board.queen_coordinates();
        assert_eq!(queens.len(), n);
        for (i, a) in queens.iter().enumerate() {
            for b in queens[i + 1..].iter() {
                assert!(a.0 != b.0 && a.1 != b.1);
                assert!(a.0 + b.1 != b.0 + a.1);
                assert!(a.0 + a.1 != b.0 + b.1);
            }
        }
        board.reset();
        assert!(board.queen_coordinates().is_empty());
    }
}

#[test]
fn queens_from_a_later_column() {
    let mut board = ChessBoard::new(4);
    assert!(board.place_queens_r(4));
    assert!(board.queen_coordinates().is_empty());
    assert!(board.is_valid(0, 0));
    assert!(board.place_queens_r(3));
    assert_eq!(board.queen_coordinates(), vec![(0, 3)]);
    assert!(!board.is_valid(0, 0));
    assert!(!board.is_valid(3, 3));
    assert!(!board.is_valid(3, 0));
    assert!(!board.is_valid(1, 2));
    assert!(board.is_valid(1, 1));
    assert!(board.is_valid(2, 0));
}

#[test]
fn queens_take_the_first_rows_that_do() {
    // the last two columns of an empty board: the first row, and the first row behind it
    // that the first queen does not attack
    let mut board = ChessBoard::new(4);
    assert!(board.place_queens_r(2));
    assert_eq!(board.queen_coordinates(), vec![(0, 2), (2, 3)]);
    // no further queen can stand in these columns: the board stays as it was
    assert!(!board.place_queens());
    assert_eq!(board.queen_coordinates(), vec![(0, 2), (2, 3)]);
    assert!(!board.place_queens_r(3));
    assert_eq!(board.queen_coordinates(), vec![(0, 2), (2, 3)]);
    // behind the last column nothing is to do
    assert!(board.place_queens_r(4));
    assert_eq!(board.queen_coordinates(), vec![(0, 2), (2, 3)]);
    let mut small = ChessBoard::new(3);
    assert!(!small.place_queens());
    assert!(small.queen_coordinates().is_empty());
    assert!(small.is_valid(1, 1));
}
