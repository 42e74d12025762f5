//! Population-based search: refine every board with descent steps, keep the
//! fittest as survivors, and breed the next generation by crossover and
//! mutation of their queen lists.

use vstd::prelude::*;

use crate::board::{Board, QueenError, same_state, square_fits, lemma_same_state_wf};
use crate::hill::lower_heuristic;
use crate::point::Point;
use crate::rng::RandomSource;
use vstd::pervasive::VecAdditionalExecFns;

verus! {

broadcast use vstd::multiset::group_multiset_axioms;

/// Rejected configuration values.
#[derive(Debug, Clone, Copy, PartialEq, Eq, Structural)]
pub enum ConfigError {
    /// `parents` must be at least 1 and smaller than `n`.
    InvalidParents,
    /// `survivors` must be at least 1 and smaller than `population`.
    InvalidSurvivors,
    /// `mutation_chance` is a percentage, at most 100.
    InvalidMutationChance,
    /// The board dimension must keep `n * n` within the machine word.
    BoardTooLarge,
}

/// Tunables of the genetic search, validated at construction.
#[derive(Debug, Clone, Copy, PartialEq, Eq, Structural)]
pub struct GeneticConfig {
    /// Board dimension and number of queens per board.
    pub n: usize,
    /// Number of boards in the initial population.
    pub population: usize,
    /// Number of parents combined into a single child.
    pub parents: usize,
    /// Number of boards that survive a generation.
    pub survivors: usize,
    /// Per-gene mutation chance, as a percentage.
    pub mutation_chance: usize,
    /// Descent steps applied to every board each generation.
    pub moves_in_generation: usize,
    /// Maximum number of generations.
    pub generations: usize,
}

impl GeneticConfig {
    /// The conditions checked at construction.
    pub open spec fn valid(self) -> bool {
        &&& 1 <= self.parents < self.n
        &&& 1 <= self.survivors < self.population
        &&& self.mutation_chance <= 100
        &&& square_fits(self.n as int)
    }

    /// Validate and build a configuration; each rejected value reports its
    /// own error, checked in the order the fields are listed.
    pub fn new(
        n: usize,
        population: usize,
        parents: usize,
        survivors: usize,
        mutation_chance: usize,
        moves_in_generation: usize,
        generations: usize,
    ) -> (r: Result<GeneticConfig, ConfigError>)
        ensures
            r matches Ok(c) ==> c == (GeneticConfig {
                n,
                population,
                parents,
                survivors,
                mutation_chance,
                moves_in_generation,
                generations,
            }) && c.valid(),
            r is Ok <==> (1 <= parents < n && 1 <= survivors < population && mutation_chance <= 100
                && square_fits(n as int)),
            r matches Err(e) ==> {
                ||| (e == ConfigError::InvalidParents && !(1 <= parents < n))
                ||| (e == ConfigError::InvalidSurvivors && 1 <= parents < n && !(1 <= survivors
                    < population))
                ||| (e == ConfigError::InvalidMutationChance && 1 <= parents < n && 1 <= survivors
                    < population && mutation_chance > 100)
                ||| (e == ConfigError::BoardTooLarge && 1 <= parents < n && 1 <= survivors
                    < population && mutation_chance <= 100 && !square_fits(n as int))
            },
    {
        if parents < 1 || parents >= n {
            return Err(ConfigError::InvalidParents);
        }
        if survivors < 1 || survivors >= population {
            return Err(ConfigError::InvalidSurvivors);
        }
        if mutation_chance > 100 {
            return Err(ConfigError::InvalidMutationChance);
        }
        let limit = usize::MAX / n;
        proof {
            vstd::arithmetic::div_mod::lemma_fundamental_div_mod(usize::MAX as int, n as int);
        }
        if n > limit {
            proof {
                assert(!square_fits(n as int)) by (nonlinear_arith)
                    requires
                        n as int > limit as int,
                        usize::MAX as int == (usize::MAX as int / n as int) * n + (usize::MAX
                            as int % n as int),
                        limit as int == usize::MAX as int / n as int,
                        0 <= usize::MAX as int % n as int,
                        (usize::MAX as int % n as int) < (n as int),
                        n >= 1,
                ;
            }
            return Err(ConfigError::BoardTooLarge);
        }
        proof {
            assert(square_fits(n as int)) by (nonlinear_arith)
                requires
                    n as int <= limit as int,
                    usize::MAX as int == (usize::MAX as int / n as int) * n + (usize::MAX as int
                        % n as int),
                    limit as int == usize::MAX as int / n as int,
                    0 <= usize::MAX as int % n as int,
                    (usize::MAX as int % n as int) < (n as int),
                    n >= 1,
            ;
        }
        Ok(
            GeneticConfig {
                n,
                population,
                parents,
                survivors,
                mutation_chance,
                moves_in_generation,
                generations,
            },
        )
    }
}

/// A population member: a well-formed board of dimension `n` holding exactly
/// `n` queens.
pub open spec fn healthy(b: Board, n: usize) -> bool {
    &&& b.wf()
    &&& b.side() == n
    &&& b.pieces().len() == n
}

/// Every board of the population is healthy.
pub open spec fn healthy_population(s: Seq<Board>, n: usize) -> bool {
    forall|i: int| 0 <= i < s.len() ==> healthy(#[trigger] s[i], n)
}

/// Which parent contributes gene `k`: parent `k / (n / parents)`, except that
/// the last parent also covers the remainder genes at the end.
pub open spec fn parent_of_gene(k: int, n: int, parents: int) -> int {
    let portion = n / parents;
    if k / portion < parents - 1 {
        k / portion
    } else {
        parents - 1
    }
}

/// `b` carries the same state as one of the first `survivors` boards of `env`.
pub open spec fn copy_of_survivor(b: Board, env: Seq<Board>, survivors: int) -> bool {
    exists|j: int| 0 <= j < survivors && same_state(b, #[trigger] env[j])
}

/// The contributing parent of any gene is one of the `parents` parents.
pub proof fn lemma_parent_of_gene_range(k: int, n: int, parents: int)
    requires
        0 <= k < n,
        1 <= parents <= n,
    ensures
        0 <= parent_of_gene(k, n, parents) < parents,
{
    let portion = n / parents;
    vstd::arithmetic::div_mod::lemma_fundamental_div_mod(n, parents);
    assert(portion >= 1) by (nonlinear_arith)
        requires
            n == portion * parents + (n % parents),
            portion == n / parents,
            0 <= n % parents,
            (n % parents) < parents,
            1 <= parents <= n,
    ;
    vstd::arithmetic::div_mod::lemma_div_pos_is_pos(k, portion);
}

/// One mutation decision: a roll under half the chance replaces the row with
/// `coord`, a roll under the chance replaces the column, and any other roll
/// leaves the gene unchanged.
pub open spec fn mutate_gene_spec(before: Point, roll: usize, coord: usize, chance: usize) -> Point {
    if roll < chance / 2 {
        Point { row: coord, col: before.col }
    } else if roll < chance {
        Point { row: before.row, col: coord }
    } else {
        before
    }
}

/// `after` is the outcome of one mutation decision on `before`, for some roll
/// in `[0, 100)` and some coordinate in `[0, n)`.
pub open spec fn gene_mutation_of(before: Point, after: Point, n: usize, chance: usize) -> bool {
    exists|roll: usize, coord: usize|
        roll < 100 && coord < n && after == #[trigger] mutate_gene_spec(before, roll, coord, chance)
}

/// Apply one mutation decision to a single gene.
pub fn mutate_gene(before: Point, roll: usize, coord: usize, mutation_chance: usize) -> (r: Point)
    ensures
        r == mutate_gene_spec(before, roll, coord, mutation_chance),
{
    if roll < mutation_chance / 2 {
        Point { row: coord, col: before.col }
    } else if roll < mutation_chance {
        Point { row: before.row, col: coord }
    } else {
        before
    }
}

/// A mutated gene keeps one coordinate and moves the other within the board,
/// or is left unchanged.
pub open spec fn mutated_gene(before: Point, after: Point, n: int) -> bool {
    ||| after == before
    ||| (after.col == before.col && after.row < n)
    ||| (after.row == before.row && after.col < n)
}

/// Build a full population of boards, each filled with `n` random queens.
fn init_population<R: RandomSource>(config: &GeneticConfig, rng: &mut R, fill_tries: usize) -> (r:
    Result<Vec<Board>, QueenError>)
    requires
        config.valid(),
    ensures
        r matches Ok(v) ==> v@.len() == config.population && healthy_population(v@, config.n),
        r matches Err(e) ==> e == QueenError::CouldNotPlace,
{
    let mut env: Vec<Board> = Vec::new();
    let mut i: usize = 0;
    while i < config.population
        invariant
            config.valid(),
            env@.len() == i,
            i <= config.population,
            healthy_population(env@, config.n),
        decreases config.population - i,
    {
        let b = Board::new(config.n);
        match b.init_n_queens(rng, fill_tries) {
            Ok(filled) => {
                env.push(filled);
            },
            Err(e) => {
                return Err(e);
            },
        }
        i += 1;
    }
    Ok(env)
}

/// Let every board make `moves` descent steps; a step that finds no
/// non-worsening move leaves its board as it stands for that step, so no
/// board's conflict count ever rises during refinement.
pub fn refine_population<R: RandomSource>(
    env: &mut Vec<Board>,
    rng: &mut R,
    n: usize,
    moves: usize,
    max_attempts: usize,
    relocation_attempts: usize,
)
    requires
        healthy_population(old(env)@, n),
        n >= 1,
    ensures
        final(env)@.len() == old(env)@.len(),
        healthy_population(final(env)@, n),
        forall|k: int|
            0 <= k < old(env)@.len() ==> (#[trigger] final(env)@[k]).total_checks() <= old(
                env,
            )@[k].total_checks(),
{
    let mut i: usize = 0;
    while i < env.len()
        invariant
            env@.len() == old(env)@.len(),
            healthy_population(env@, n),
            n >= 1,
            i <= env@.len(),
            forall|k: int|
                0 <= k < env@.len() ==> (#[trigger] env@[k]).total_checks() <= old(
                    env,
                )@[k].total_checks(),
        decreases env@.len() - i,
    {
        let ghost prev = env@;
        let mut b = env.remove(i);
        let mut m: usize = 0;
        while m < moves
            invariant
                b.wf(),
                b.side() == n,
                b.pieces().len() == n,
                b.total_checks() <= prev[i as int].total_checks(),
                n >= 1,
                i < prev.len(),
                m <= moves,
            decreases moves - m,
        {
            let ghost before_step = b;
            let _step = lower_heuristic(&mut b, rng, max_attempts, relocation_attempts);
            proof {
                assert(b.total_checks() <= before_step.total_checks());
            }
            m += 1;
        }
        env.insert(i, b);
        proof {
            assert(env@ =~= prev.update(i as int, b));
            assert forall|k: int| 0 <= k < env@.len() implies healthy(#[trigger] env@[k], n) by {
                if k != i as int {
                    assert(env@[k] == prev[k]);
                }
            }
        }
        i += 1;
    }
}

/// The conflict counts of the first `k` boards, in order.
fn prefix_heuristics(env: &Vec<Board>, k: usize) -> (r: Vec<usize>)
    requires
        k <= env@.len(),
        forall|i: int| 0 <= i < env@.len() ==> (#[trigger] env@[i]).wf(),
    ensures
        r@.len() == k,
        forall|i: int| 0 <= i < k ==> #[trigger] r@[i] == env@[i].total_checks(),
{
    let mut r: Vec<usize> = Vec::new();
    let mut i: usize = 0;
    while i < k
        invariant
            k <= env@.len(),
            forall|j: int| 0 <= j < env@.len() ==> (#[trigger] env@[j]).wf(),
            r@.len() == i,
            i <= k,
            forall|j: int| 0 <= j < i ==> #[trigger] r@[j] == env@[j].total_checks(),
        decreases k - i,
    {
        let h = env[i].checks_count();
        r.push(h);
        i += 1;
    }
    r
}

/// Inserting an element anywhere in a sequence inserts it into the multiset
/// of its elements.
proof fn lemma_insert_to_multiset(s: Seq<Board>, i: int, x: Board)
    requires
        0 <= i <= s.len(),
    ensures
        s.insert(i, x).to_multiset() == s.to_multiset().insert(x),
{
    let big = s.insert(i, x);
    s.insert_ensures(i, x);
    assert(big.remove(i) =~= s);
    big.to_multiset_ensures();
    s.to_multiset_ensures();
    assert(big[i] == x);
    assert(big.contains(x)) by {
        assert(big[i] == x);
    }
    assert(big.to_multiset().count(x) > 0);
    assert(big.remove(i).to_multiset() == big.to_multiset().remove(big[i]));
    assert forall|y: Board|
        big.to_multiset().count(y) == #[trigger] s.to_multiset().insert(x).count(y) by {
        assert(s.to_multiset().count(y) == big.to_multiset().remove(x).count(y));
    }
    assert(big.to_multiset() =~= s.to_multiset().insert(x));
}

/// Sort the population ascending by total conflict count. The result is a
/// permutation of the input.
pub fn sort_by_fitness(env: &mut Vec<Board>)
    requires
        forall|i: int| 0 <= i < old(env)@.len() ==> (#[trigger] old(env)@[i]).wf(),
    ensures
        final(env)@.len() == old(env)@.len(),
        final(env)@.to_multiset() == old(env)@.to_multiset(),
        forall|i: int, j: int|
            0 <= i <= j < final(env)@.len() ==> (#[trigger] final(env)@[i]).total_checks() <= (
            #[trigger] final(env)@[j]).total_checks(),
        forall|i: int| 0 <= i < final(env)@.len() ==> (#[trigger] final(env)@[i]).wf(),
{
    let len = env.len();
    let mut i: usize = 1;
    while i < len
        invariant
            env@.len() == len,
            len == old(env)@.len(),
            env@.to_multiset() == old(env)@.to_multiset(),
            forall|k: int| 0 <= k < env@.len() ==> (#[trigger] env@[k]).wf(),
            1 <= i || len == 0,
            i <= len || len <= 1,
            forall|a: int, b: int|
                0 <= a <= b < i && b < env@.len() ==> (#[trigger] env@[a]).total_checks() <= (
                #[trigger] env@[b]).total_checks(),
        decreases len - i,
    {
        let mut j: usize = i;
        while j > 0 && env[j - 1].checks_count() > env[j].checks_count()
            invariant
                env@.len() == len,
                len == old(env)@.len(),
                env@.to_multiset() == old(env)@.to_multiset(),
                forall|k: int| 0 <= k < env@.len() ==> (#[trigger] env@[k]).wf(),
                j <= i < len,
                forall|a: int, b: int|
                    0 <= a <= b < j ==> (#[trigger] env@[a]).total_checks() <= (
                    #[trigger] env@[b]).total_checks(),
                forall|a: int, b: int|
                    j <= a <= b <= i ==> (#[trigger] env@[a]).total_checks() <= (
                    #[trigger] env@[b]).total_checks(),
                forall|a: int, b: int|
                    0 <= a < j && j < b <= i ==> (#[trigger] env@[a]).total_checks() <= (
                    #[trigger] env@[b]).total_checks(),
            decreases j,
        {
            let ghost prev = env@;
            let moved = env.remove(j);
            env.insert(j - 1, moved);
            proof {
                prev.to_multiset_ensures();
                lemma_insert_to_multiset(prev.remove(j as int), j - 1, prev[j as int]);
                assert(env@ =~= prev.update(j - 1, prev[j as int]).update(j as int, prev[j - 1]));
                assert forall|k: int| 0 <= k < env@.len() implies (#[trigger] env@[k]).wf() by {
                    if k != j - 1 && k != j as int {
                        assert(env@[k] == prev[k]);
                    }
                }
            }
            j -= 1;
        }
        i += 1;
    }
}

/// Pick `parents` boards from the first `survivors` entries of `env`,
/// independently and uniformly, with replacement; each pick is a deep copy.
fn pick_parents<R: RandomSource>(
    env: &Vec<Board>,
    survivors: usize,
    parents: usize,
    n: usize,
    rng: &mut R,
) -> (r: Vec<Board>)
    requires
        1 <= survivors <= env@.len(),
        healthy_population(env@, n),
    ensures
        r@.len() == parents,
        healthy_population(r@, n),
        forall|k: int|
            0 <= k < parents ==> copy_of_survivor(#[trigger] r@[k], env@, survivors as int),
{
    let mut picked: Vec<Board> = Vec::new();
    let mut i: usize = 0;
    while i < parents
        invariant
            1 <= survivors <= env@.len(),
            healthy_population(env@, n),
            picked@.len() == i,
            i <= parents,
            healthy_population(picked@, n),
            forall|k: int|
                0 <= k < i ==> copy_of_survivor(#[trigger] picked@[k], env@, survivors as int),
        decreases parents - i,
    {
        let idx = rng.next_below(survivors);
        let parent = env[idx].duplicate();
        proof {
            lemma_same_state_wf(parent, env@[idx as int]);
        }
        picked.push(parent);
        proof {
            assert(same_state(picked@[i as int], env@[idx as int]));
            assert(copy_of_survivor(picked@[i as int], env@, survivors as int));
        }
        i += 1;
    }
    picked
}

/// Assemble the genes of a child: parent `i` contributes its queens at
/// source indices `[i * portion, (i + 1) * portion)` with `portion = n /
/// parents`, and the last parent also contributes the `n % parents`
/// remainder, so the child always carries exactly `n` genes.
pub fn make_child_genes(parents_vec: &Vec<Board>, n: usize, parents: usize) -> (r: Vec<Point>)
    requires
        1 <= parents <= n,
        parents_vec@.len() == parents,
        forall|i: int| 0 <= i < parents ==> (#[trigger] parents_vec@[i]).pieces().len() == n,
    ensures
        r@.len() == n,
        forall|k: int|
            0 <= k < n ==> #[trigger] r@[k] == parents_vec@[parent_of_gene(
                k,
                n as int,
                parents as int,
            )].pieces()[k],
{
    let mut child: Vec<Point> = Vec::new();
    let gene_portions = n / parents;
    let last_parent_extra = n % parents;
    proof {
        vstd::arithmetic::div_mod::lemma_fundamental_div_mod(n as int, parents as int);
        assert(gene_portions >= 1) by (nonlinear_arith)
            requires
                n as int == (n as int / parents as int) * parents + (n as int % parents as int),
                gene_portions == n as int / parents as int,
                0 <= n as int % parents as int,
                (n as int % parents as int) < (parents as int),
                1 <= parents <= n,
        ;
    }
    let mut i: usize = 0;
    while i < parents
        invariant
            1 <= parents <= n,
            parents_vec@.len() == parents,
            forall|p: int| 0 <= p < parents ==> (#[trigger] parents_vec@[p]).pieces().len() == n,
            gene_portions == n as int / parents as int,
            last_parent_extra == n as int % parents as int,
            n as int == gene_portions * parents + last_parent_extra,
            i <= parents,
            i < parents ==> child@.len() == i * gene_portions,
            i == parents ==> child@.len() == n,
            forall|k: int|
                0 <= k < child@.len() ==> #[trigger] child@[k] == parents_vec@[parent_of_gene(
                    k,
                    n as int,
                    parents as int,
                )].pieces()[k],
        decreases parents - i,
    {
        let mut extra_genes: usize = 0;
        if i == parents - 1 {
            extra_genes = last_parent_extra;
        }
        proof {
            assert(gene_portions + extra_genes <= n) by (nonlinear_arith)
                requires
                    n as int == gene_portions * parents + last_parent_extra,
                    (i == parents - 1) ==> extra_genes == last_parent_extra,
                    (i != parents - 1) ==> extra_genes == 0,
                    0 <= last_parent_extra,
                    0 <= gene_portions,
                    1 <= parents,
            ;
        }
        let this_share = gene_portions + extra_genes;
        proof {
            assert(i as int * gene_portions + this_share <= n as int) by (nonlinear_arith)
                requires
                    n as int == gene_portions * parents + last_parent_extra,
                    this_share == gene_portions + extra_genes,
                    i < parents,
                    (i == parents - 1) ==> extra_genes == last_parent_extra,
                    (i != parents - 1) ==> extra_genes == 0,
                    0 <= last_parent_extra,
                    0 <= gene_portions,
            ;
        }
        let base = i * gene_portions;
        let mut j: usize = 0;
        while j < this_share
            invariant
                1 <= parents <= n,
                parents_vec@.len() == parents,
                forall|p: int| 0 <= p < parents ==> (#[trigger] parents_vec@[p]).pieces().len()
                    == n,
                gene_portions == n as int / parents as int,
                last_parent_extra == n as int % parents as int,
                n as int == gene_portions * parents + last_parent_extra,
                i < parents,
                base == i * gene_portions,
                (i == parents - 1) ==> this_share == gene_portions + last_parent_extra,
                (i != parents - 1) ==> this_share == gene_portions,
                base + this_share <= n,
                j <= this_share,
                child@.len() == base + j,
                forall|k: int|
                    0 <= k < child@.len() ==> #[trigger] child@[k] == parents_vec@[parent_of_gene(
                        k,
                        n as int,
                        parents as int,
                    )].pieces()[k],
            decreases this_share - j,
        {
            let src = base + j;
            let gene = parents_vec[i].queens()[src];
            proof {
                let k = src as int;
                let portion = gene_portions as int;
                if i < parents - 1 {
                    vstd::arithmetic::div_mod::lemma_fundamental_div_mod_converse(
                        k,
                        portion,
                        i as int,
                        j as int,
                    );
                    assert(k / portion == i as int);
                    assert(parent_of_gene(k, n as int, parents as int) == i as int);
                } else {
                    assert(k / portion >= parents - 1) by {
                        vstd::arithmetic::div_mod::lemma_div_is_ordered(
                            (parents - 1) as int * portion,
                            k,
                            portion,
                        );
                        vstd::arithmetic::div_mod::lemma_div_by_multiple(
                            (parents - 1) as int,
                            portion,
                        );
                    }
                    assert(parent_of_gene(k, n as int, parents as int) == parents - 1);
                }
            }
            child.push(gene);
            j += 1;
        }
        proof {
            if i + 1 < parents {
                assert((i + 1) as int * gene_portions == i as int * gene_portions + gene_portions)
                    by (nonlinear_arith);
            } else {
                assert(i as int * gene_portions + gene_portions + last_parent_extra == n as int)
                    by (nonlinear_arith)
                    requires
                        n as int == gene_portions * parents + last_parent_extra,
                        i as int == parents - 1,
                ;
            }
        }
        i += 1;
    }
    child
}

/// Mutate each gene independently: a roll under half the chance moves the
/// row, a roll under the chance moves the column, anything else leaves the
/// gene unchanged. A chance of zero mutates nothing.
pub fn mutate_genes<R: RandomSource>(
    genes: &mut Vec<Point>,
    rng: &mut R,
    n: usize,
    mutation_chance: usize,
)
    requires
        n >= 1,
        mutation_chance <= 100,
    ensures
        final(genes)@.len() == old(genes)@.len(),
        forall|k: int|
            0 <= k < old(genes)@.len() ==> gene_mutation_of(
                old(genes)@[k],
                #[trigger] final(genes)@[k],
                n,
                mutation_chance,
            ),
        forall|k: int|
            0 <= k < old(genes)@.len() ==> mutated_gene(
                old(genes)@[k],
                #[trigger] final(genes)@[k],
                n as int,
            ),
        mutation_chance == 0 ==> final(genes)@ == old(genes)@,
{
    let len = genes.len();
    let mut i: usize = 0;
    while i < len
        invariant
            n >= 1,
            mutation_chance <= 100,
            len == old(genes)@.len(),
            genes@.len() == len,
            i <= len,
            forall|k: int|
                0 <= k < i ==> gene_mutation_of(
                    old(genes)@[k],
                    #[trigger] genes@[k],
                    n,
                    mutation_chance,
                ),
            forall|k: int|
                0 <= k < i ==> mutated_gene(old(genes)@[k], #[trigger] genes@[k], n as int),
            forall|k: int| i <= k < len ==> #[trigger] genes@[k] == old(genes)@[k],
            mutation_chance == 0 ==> genes@ == old(genes)@,
        decreases len - i,
    {
        let chance = rng.next_below(100);
        let mutated_coord = rng.next_below(n);
        let g = genes[i];
        let mutated = mutate_gene(g, chance, mutated_coord, mutation_chance);
        genes.set(i, mutated);
        proof {
            assert(genes@[i as int] == mutate_gene_spec(
                old(genes)@[i as int],
                chance,
                mutated_coord,
                mutation_chance,
            ));
            assert(gene_mutation_of(old(genes)@[i as int], genes@[i as int], n, mutation_chance));
        }
        i += 1;
    }
}

/// Try to place all genes, in order, on a fresh board of dimension `n`.
/// The child is viable exactly when no two genes collide: the result is the
/// fully placed board if the genes are distinct, and nothing otherwise.
pub fn build_child(genes: &Vec<Point>, n: usize) -> (r: Option<Board>)
    requires
        genes@.len() == n,
        square_fits(n as int),
        forall|k: int| 0 <= k < n ==> (#[trigger] genes@[k]).row < n && genes@[k].col < n,
    ensures
        match r {
            Some(b) => healthy(b, n) && b.pieces() == genes@ && genes@.no_duplicates(),
            None => !genes@.no_duplicates(),
        },
{
    let mut child = Board::new(n);
    let mut i: usize = 0;
    while i < genes.len()
        invariant
            genes@.len() == n,
            square_fits(n as int),
            forall|k: int| 0 <= k < n ==> (#[trigger] genes@[k]).row < n && genes@[k].col < n,
            child.wf(),
            child.side() == n,
            i <= n,
            child.pieces() == genes@.take(i as int),
        decreases genes@.len() - i,
    {
        proof {
            assert(square_fits(i + 1 as int)) by (nonlinear_arith)
                requires
                    square_fits(n as int),
                    0 <= i < n,
            ;
        }
        let gene = genes[i];
        let placed = child.place(&gene);
        match placed {
            Ok(()) => {
                proof {
                    assert(genes@.take(i + 1) =~= genes@.take(i as int).push(genes@[i as int]));
                }
                i += 1;
            },
            Err(_) => {
                proof {
                    assert(genes@.take(i as int).contains(genes@[i as int]));
                    let w = choose|w: int|
                        0 <= w < i && genes@.take(i as int)[w] == genes@[i as int];
                    assert(genes@[w] == genes@[i as int]);
                }
                return None;
            },
        }
    }
    proof {
        assert(genes@.take(n as int) =~= genes@);
    }
    Some(child)
}

/// Produce the next generation from the survivors at the front of the sorted
/// population: `population / parents` reproduction attempts, each building
/// one child that joins the next generation only if its mutated genes
/// collide nowhere.
pub fn reproduce<R: RandomSource>(env: &Vec<Board>, config: &GeneticConfig, rng: &mut R) -> (r:
    Vec<Board>)
    requires
        config.valid(),
        config.survivors <= env@.len(),
        healthy_population(env@, config.n),
    ensures
        r@.len() <= config.population as int / config.parents as int,
        healthy_population(r@, config.n),
{
    let mut next: Vec<Board> = Vec::new();
    let attempts_total = config.population / config.parents;
    let mut t: usize = 0;
    while t < attempts_total
        invariant
            config.valid(),
            config.survivors <= env@.len(),
            healthy_population(env@, config.n),
            attempts_total == config.population as int / config.parents as int,
            t <= attempts_total,
            next@.len() <= t,
            healthy_population(next@, config.n),
        decreases attempts_total - t,
    {
        let parents_vec = pick_parents(env, config.survivors, config.parents, config.n, rng);
        proof {
            assert forall|p: int|
                0 <= p < config.parents implies (#[trigger] parents_vec@[p]).pieces().len()
                == config.n by {
                assert(healthy(parents_vec@[p], config.n));
            }
        }
        let mut genes = make_child_genes(&parents_vec, config.n, config.parents);
        let ghost base_genes = genes@;
        proof {
            assert forall|k: int|
                0 <= k < config.n implies (#[trigger] base_genes[k]).row < config.n
                && base_genes[k].col < config.n by {
                lemma_parent_of_gene_range(k, config.n as int, config.parents as int);
                let p = parent_of_gene(k, config.n as int, config.parents as int);
                assert(healthy(parents_vec@[p], config.n));
                assert(parents_vec@[p].pieces()[k].row < parents_vec@[p].side());
                assert(parents_vec@[p].pieces()[k].col < parents_vec@[p].side());
            }
        }
        mutate_genes(&mut genes, rng, config.n, config.mutation_chance);
        proof {
            assert forall|k: int|
                0 <= k < config.n implies (#[trigger] genes@[k]).row < config.n && genes@[k].col
                < config.n by {
                assert(mutated_gene(base_genes[k], genes@[k], config.n as int));
            }
        }
        match build_child(&genes, config.n) {
            Some(child) => {
                next.push(child);
            },
            None => {},
        }
        t += 1;
    }
    next
}

/// Sum of a list of conflict counts.
pub open spec fn sum_counts(s: Seq<usize>) -> int
    decreases s.len(),
{
    if s.len() == 0 {
        0
    } else {
        sum_counts(s.drop_last()) + s.last()
    }
}

/// A heuristics list that reads off a population's conflict totals sums to
/// that population's summed total.
proof fn lemma_sum_counts_matches(h: Seq<usize>, env: Seq<Board>)
    requires
        h.len() == env.len(),
        forall|i: int| 0 <= i < h.len() ==> #[trigger] h[i] == env[i].total_checks(),
    ensures
        sum_counts(h) == crate::board::sum_totals(env),
    decreases h.len(),
{
    if h.len() > 0 {
        assert forall|i: int| 0 <= i < h.drop_last().len() implies #[trigger] h.drop_last()[i]
            == env.drop_last()[i].total_checks() by {
            assert(h.drop_last()[i] == h[i]);
            assert(env.drop_last()[i] == env[i]);
        }
        lemma_sum_counts_matches(h.drop_last(), env.drop_last());
        assert(h.last() == h[h.len() - 1]);
        assert(env.last() == env[h.len() - 1]);
    }
}

/// Pointwise no-larger conflict totals sum to no more.
proof fn lemma_sum_totals_pointwise_le(a: Seq<Board>, b: Seq<Board>)
    requires
        a.len() == b.len(),
        forall|i: int| 0 <= i < a.len() ==> (#[trigger] a[i]).total_checks() <= b[i].total_checks(),
    ensures
        crate::board::sum_totals(a) <= crate::board::sum_totals(b),
    decreases a.len(),
{
    if a.len() > 0 {
        assert forall|i: int|
            0 <= i < a.drop_last().len() implies (#[trigger] a.drop_last()[i]).total_checks()
            <= b.drop_last()[i].total_checks() by {
            assert(a.drop_last()[i] == a[i]);
            assert(b.drop_last()[i] == b[i]);
        }
        lemma_sum_totals_pointwise_le(a.drop_last(), b.drop_last());
        assert(a.last() == a[a.len() - 1]);
        assert(b.last() == b[a.len() - 1]);
    }
}

/// Snapshot of one generation: population conflict counts at its start,
/// after refinement and sorting, and of the chosen survivors.
#[derive(Debug)]
pub struct GenerationReport {
    /// Conflict counts when the generation began.
    pub start: Vec<usize>,
    /// Conflict counts after the refinement moves, sorted ascending.
    pub refined: Vec<usize>,
    /// Conflict counts of the survivors.
    pub survivors: Vec<usize>,
}

/// A generation report is consistent with the refinement and selection
/// steps: refinement never raised the summed conflict count, the refined
/// counts are sorted ascending, and the survivors' counts are their prefix,
/// at most `survivors` of them.
pub open spec fn report_ok(rep: GenerationReport, survivors: usize) -> bool {
    &&& sum_counts(rep.refined@) <= sum_counts(rep.start@)
    &&& forall|a: int, b: int|
        0 <= a <= b < rep.refined@.len() ==> rep.refined@[a] <= rep.refined@[b]
    &&& rep.survivors@.len() <= survivors
    &&& rep.survivors@ == rep.refined@.take(rep.survivors@.len() as int)
}

/// How a genetic run ended.
pub enum GeneticOutcome {
    /// A zero-conflict board was found.
    Solved(Board),
    /// The generation budget ran out without a solution.
    NoSolution,
    /// The population fell below the survivor requirement.
    Collapsed,
}

/// Run the full genetic search: refine, select, and reproduce for up to
/// `generations` generations, reporting each generation's conflict counts.
pub fn genetic_solution<R: RandomSource>(
    config: &GeneticConfig,
    rng: &mut R,
    fill_tries: usize,
    max_attempts: usize,
    relocation_attempts: usize,
) -> (r: Result<(Vec<GenerationReport>, GeneticOutcome), QueenError>)
    requires
        config.valid(),
    ensures
        r matches Ok(out) ==> out.0@.len() <= config.generations && (out.1 matches
            GeneticOutcome::Solved(b) ==> healthy(b, config.n) && b.total_checks() == 0),
        r matches Ok(out) ==> forall|k: int|
            0 <= k < out.0@.len() ==> report_ok(#[trigger] out.0@[k], config.survivors),
        r matches Ok(out) ==> (out.1 is NoSolution ==> out.0@.len() == config.generations),
        r matches Ok(out) ==> (!(out.1 is NoSolution) ==> out.0@.len() >= 1),
        r matches Ok(out) ==> (out.1 is Solved ==> out.0@.last().survivors@.len() >= 1
            && out.0@.last().survivors@[0] == 0),
        r matches Ok(out) ==> (out.1 is Collapsed ==> out.0@.last().survivors@.len() == 0),
        r matches Ok(out) ==> forall|k: int|
            0 <= k < out.0@.len() - 1 ==> (#[trigger] out.0@[k]).survivors@.len() >= 1
                && out.0@[k].survivors@[0] > 0,
        r matches Ok(out) ==> (out.1 is NoSolution ==> forall|k: int|
            0 <= k < out.0@.len() ==> (#[trigger] out.0@[k]).survivors@.len() >= 1
                && out.0@[k].survivors@[0] > 0),
        r matches Err(e) ==> e == QueenError::CouldNotPlace,
{
    let mut env = match init_population(config, rng, fill_tries) {
        Ok(env) => env,
        Err(e) => {
            return Err(e);
        },
    };
    let mut reports: Vec<GenerationReport> = Vec::new();
    let mut generation: usize = 0;
    while generation < config.generations
        invariant
            config.valid(),
            healthy_population(env@, config.n),
            reports@.len() == generation,
            generation <= config.generations,
            forall|k: int|
                0 <= k < reports@.len() ==> report_ok(#[trigger] reports@[k], config.survivors),
            forall|k: int|
                0 <= k < reports@.len() ==> (#[trigger] reports@[k]).survivors@.len() >= 1
                    && reports@[k].survivors@[0] > 0,
        decreases config.generations - generation,
    {
        let ghost pre_refine = env@;
        let start = prefix_heuristics(&env, env.len());
        refine_population(
            &mut env,
            rng,
            config.n,
            config.moves_in_generation,
            max_attempts,
            relocation_attempts,
        );
        let ghost pre_sort = env@;
        sort_by_fitness(&mut env);
        proof {
            assert forall|k: int| 0 <= k < env@.len() implies healthy(
                #[trigger] env@[k],
                config.n,
            ) by {
                env@.to_multiset_ensures();
                pre_sort.to_multiset_ensures();
                assert(env@.contains(env@[k]));
                assert(env@.to_multiset().count(env@[k]) > 0);
                assert(pre_sort.contains(env@[k]));
            }
        }
        let refined = prefix_heuristics(&env, env.len());
        proof {
            lemma_sum_counts_matches(start@, pre_refine);
            lemma_sum_totals_pointwise_le(pre_sort, pre_refine);
            crate::board::lemma_sum_totals_permutation(env@, pre_sort);
            lemma_sum_counts_matches(refined@, env@);
            assert(sum_counts(refined@) <= sum_counts(start@));
        }
        if env.len() < config.survivors {
            let rep = GenerationReport { start, refined, survivors: Vec::new() };
            proof {
                assert(rep.survivors@ =~= rep.refined@.take(0));
                assert(report_ok(rep, config.survivors));
            }
            reports.push(rep);
            return Ok((reports, GeneticOutcome::Collapsed));
        }
        let survivors_h = prefix_heuristics(&env, config.survivors);
        let best = survivors_h[0];
        let rep = GenerationReport { start, refined, survivors: survivors_h };
        proof {
            assert(rep.survivors@ =~= rep.refined@.take(config.survivors as int));
            assert(report_ok(rep, config.survivors));
        }
        reports.push(rep);
        if best == 0 {
            let solution = env[0].duplicate();
            proof {
                lemma_same_state_wf(solution, env@[0]);
            }
            return Ok((reports, GeneticOutcome::Solved(solution)));
        }
        let next = reproduce(&env, config, rng);
        env = next;
        generation += 1;
    }
    Ok((reports, GeneticOutcome::NoSolution))
}

} // verus!
