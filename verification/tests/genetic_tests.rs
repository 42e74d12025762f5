use nqueen::board::Board;
use nqueen::genetic::{
    build_child, genetic_solution, make_child_genes, mutate_gene, mutate_genes,
    refine_population, reproduce, sort_by_fitness, ConfigError, GeneticConfig, GeneticOutcome,
};
use nqueen::point::Point;
use nqueen::rng::Lcg;

fn board_with_column(n: usize, col: usize) -> Board {
    let mut b = Board::new(n);
    for row in 0..n {
        b.place(&Point::new(row, col)).unwrap();
    }
    b
}

#[test]
fn config_rejects_too_many_parents() {
    let r = GeneticConfig::new(4, 30, 4, 6, 5, 3, 1000);
    assert_eq!(r.unwrap_err(), ConfigError::InvalidParents);
    let r = GeneticConfig::new(4, 30, 0, 6, 5, 3, 1000);
    assert_eq!(r.unwrap_err(), ConfigError::InvalidParents);
}

#[test]
fn config_rejects_bad_survivor_count() {
    let r = GeneticConfig::new(8, 6, 2, 6, 5, 3, 1000);
    assert_eq!(r.unwrap_err(), ConfigError::InvalidSurvivors);
    let r = GeneticConfig::new(8, 6, 2, 0, 5, 3, 1000);
    assert_eq!(r.unwrap_err(), ConfigError::InvalidSurvivors);
}

#[test]
fn config_rejects_mutation_over_hundred() {
    let r = GeneticConfig::new(8, 30, 2, 6, 101, 3, 1000);
    assert_eq!(r.unwrap_err(), ConfigError::InvalidMutationChance);
}

#[test]
fn config_rejects_an_oversized_board() {
    let r = GeneticConfig::new(usize::MAX, 30, 2, 6, 5, 3, 1000);
    assert_eq!(r.unwrap_err(), ConfigError::BoardTooLarge);
}

#[test]
fn config_accepts_the_documented_defaults() {
    let c = GeneticConfig::new(8, 30, 2, 6, 5, 3, 1000).unwrap();
    assert_eq!(c.n, 8);
    assert_eq!(c.population, 30);
    assert_eq!(c.parents, 2);
    assert_eq!(c.survivors, 6);
    assert_eq!(c.mutation_chance, 5);
    assert_eq!(c.moves_in_generation, 3);
    assert_eq!(c.generations, 1000);
}

#[test]
fn crossover_eight_queens_two_parents() {
    // n = 8 and two parents: each portion is 4 genes, the last parent
    // contributes exactly 4 with no remainder, and the child carries 8.
    let a = board_with_column(8, 0);
    let b = board_with_column(8, 1);
    let parents = vec![a, b];
    let genes = make_child_genes(&parents, 8, 2);
    assert_eq!(genes.len(), 8);
    for k in 0..4 {
        assert_eq!(genes[k], Point::new(k, 0));
    }
    for k in 4..8 {
        assert_eq!(genes[k], Point::new(k, 1));
    }
}

#[test]
fn crossover_remainder_goes_to_last_parent() {
    // n = 5 and two parents: portions of 2, and the last parent contributes
    // the remainder, 3 genes in all.
    let a = board_with_column(5, 0);
    let b = board_with_column(5, 1);
    let parents = vec![a, b];
    let genes = make_child_genes(&parents, 5, 2);
    assert_eq!(genes.len(), 5);
    assert_eq!(genes[0], Point::new(0, 0));
    assert_eq!(genes[1], Point::new(1, 0));
    assert_eq!(genes[2], Point::new(2, 1));
    assert_eq!(genes[3], Point::new(3, 1));
    assert_eq!(genes[4], Point::new(4, 1));
}

#[test]
fn mutation_decision_thresholds() {
    let p = Point::new(2, 3);
    // Rolls under half the chance move the row, under the chance the column,
    // anything else leaves the gene unchanged.
    assert_eq!(mutate_gene(p, 4, 0, 10), Point::new(0, 3));
    assert_eq!(mutate_gene(p, 5, 0, 10), Point::new(2, 0));
    assert_eq!(mutate_gene(p, 9, 1, 10), Point::new(2, 1));
    assert_eq!(mutate_gene(p, 10, 1, 10), p);
    assert_eq!(mutate_gene(p, 0, 1, 0), p);
    assert_eq!(mutate_gene(p, 49, 1, 100), Point::new(1, 3));
    assert_eq!(mutate_gene(p, 50, 1, 100), Point::new(2, 1));
    assert_eq!(mutate_gene(p, 99, 1, 100), Point::new(2, 1));
}

#[test]
fn refinement_never_raises_a_board() {
    let mut rng = Lcg::new(17);
    let mut env = vec![board_with_column(5, 0), board_with_column(5, 2)];
    let before: Vec<usize> = env.iter().map(|b| b.checks_count()).collect();
    refine_population(&mut env, &mut rng, 5, 3, 1000, 1000);
    assert_eq!(env.len(), 2);
    for (b, pre) in env.iter().zip(before.iter()) {
        assert!(b.checks_count() <= *pre);
        assert_eq!(b.queens().len(), 5);
    }
}

#[test]
fn zero_mutation_chance_changes_nothing() {
    let mut rng = Lcg::new(9);
    let mut genes = vec![Point::new(0, 0), Point::new(1, 2), Point::new(3, 3)];
    let before = genes.clone();
    mutate_genes(&mut genes, &mut rng, 4, 0);
    assert_eq!(genes, before);
}

#[test]
fn full_mutation_stays_on_the_board() {
    let mut rng = Lcg::new(10);
    let mut genes = vec![Point::new(0, 0), Point::new(1, 2), Point::new(3, 3)];
    let before = genes.clone();
    mutate_genes(&mut genes, &mut rng, 4, 100);
    assert_eq!(genes.len(), 3);
    for (g, b) in genes.iter().zip(before.iter()) {
        assert!(g.row < 4 && g.col < 4);
        assert!(g.row == b.row || g.col == b.col);
    }
}

#[test]
fn build_child_rejects_colliding_genes() {
    let genes = vec![Point::new(0, 0), Point::new(1, 1), Point::new(0, 0)];
    assert!(build_child(&genes, 3).is_none());
}

#[test]
fn build_child_places_distinct_genes() {
    let genes = vec![Point::new(0, 0), Point::new(1, 1), Point::new(2, 0)];
    let child = build_child(&genes, 3).unwrap();
    assert_eq!(child.queens(), &genes);
    assert_eq!(child.n(), 3);
}

#[test]
fn sort_orders_by_conflict_count() {
    // A column of queens is all conflicts; a diagonal is too; a solved
    // placement has none.
    let column = board_with_column(4, 0);
    let mut solved = Board::new(4);
    solved.place(&Point::new(0, 1)).unwrap();
    solved.place(&Point::new(1, 3)).unwrap();
    solved.place(&Point::new(2, 0)).unwrap();
    solved.place(&Point::new(3, 2)).unwrap();
    let mut pair = Board::new(4);
    pair.place(&Point::new(0, 0)).unwrap();
    pair.place(&Point::new(0, 2)).unwrap();

    let mut env = vec![column, solved, pair];
    sort_by_fitness(&mut env);
    assert_eq!(env.len(), 3);
    assert_eq!(env[0].checks_count(), 0);
    assert_eq!(env[1].checks_count(), 1);
    assert_eq!(env[2].checks_count(), 6);
}

#[test]
fn reproduction_never_exceeds_the_quota() {
    let config = GeneticConfig::new(6, 10, 3, 2, 10, 1, 5).unwrap();
    let mut rng = Lcg::new(21);
    let mut env = Vec::new();
    for _ in 0..4 {
        let b = Board::new(6).init_n_queens(&mut rng, 100000).unwrap();
        env.push(b);
    }
    let next = reproduce(&env, &config, &mut rng);
    assert!(next.len() <= 10 / 3);
    for child in &next {
        assert_eq!(child.queens().len(), 6);
        assert_eq!(child.n(), 6);
    }
}

#[test]
fn genetic_search_reports_each_generation() {
    let config = GeneticConfig::new(5, 8, 2, 3, 10, 2, 12).unwrap();
    let mut rng = Lcg::new(31);
    let (reports, outcome) = genetic_solution(&config, &mut rng, 100000, 1000, 1000).unwrap();
    assert!(reports.len() <= 12);
    for report in &reports {
        assert!(report.survivors.len() <= 3);
        for h in &report.start {
            assert!(*h <= 10);
        }
    }
    match outcome {
        GeneticOutcome::Solved(b) => {
            assert_eq!(b.checks_count(), 0);
            assert_eq!(b.queens().len(), 5);
            assert_eq!(*reports.last().unwrap().survivors.first().unwrap(), 0);
        },
        GeneticOutcome::NoSolution => {
            assert_eq!(reports.len(), 12);
            for report in &reports {
                assert!(report.survivors[0] > 0);
            }
        },
        GeneticOutcome::Collapsed => {
            assert!(reports.last().unwrap().survivors.is_empty());
        },
    }
    for report in &reports {
        let refined_sum: usize = report.refined.iter().sum();
        let start_sum: usize = report.start.iter().sum();
        assert!(refined_sum <= start_sum);
    }
}
