use good_stv::count::Count;

fn pile_total(count: &Count) -> usize {
    count.piles.iter().map(|p| p.len()).sum()
}

#[test]
fn ballots_are_conserved_round_by_round() {
    let ballots = vec![vec![0, 1, 2], vec![1, 0, 2], vec![2, 0, 1], vec![0, 2, 1]];
    let mut count = Count::open(3, ballots);
    assert_eq!(count.piles, vec![vec![0, 3], vec![1], vec![2]]);
    assert_eq!(pile_total(&count), 4);

    assert!(count.winners(3).is_empty());
    assert_eq!(count.loser(), Some(1));
    count.eliminate(1);
    assert_eq!(count.piles, vec![vec![0, 3, 1], vec![], vec![2]]);
    assert_eq!(count.eliminated, vec![(1, 1)]);
    assert_eq!(pile_total(&count), 4);

    let winners = count.winners(3);
    assert_eq!(winners, vec![0]);
    count.elect_all(&winners);
    count.distribute_surplus(0, 3, &Vec::new());
    assert_eq!(count.elected, vec![(0, 3)]);
    assert_eq!(pile_total(&count) + 3 * count.elected.len(), 4);
    assert_eq!(count.active, vec![false, false, true]);
}

#[test]
fn surplus_skips_decided_preferences() {
    let ballots = vec![vec![0, 1, 2], vec![0, 1, 2], vec![0, 2], vec![1]];
    let mut count = Count::open(3, ballots);
    count.eliminate(1);
    assert_eq!(count.piles, vec![vec![0, 1, 2], vec![], vec![]]);
    count.elect_all(&vec![0]);
    count.distribute_surplus(0, 2, &vec![1]);
    assert_eq!(count.piles, vec![vec![], vec![], vec![1]]);
    assert_eq!(count.cursor[1], 3);
}
