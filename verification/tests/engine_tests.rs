use rand::SeedableRng;
use sfwsvm::evolve::{
    child_mutation_rate, insert_sorted, mutate, random_gene, random_genome, Population,
    GENEPOOL_SIZE, INSTRUCTION_SIZE_INIT, MUTATION_RATE_INIT, MUTATION_RATE_MAX,
    MUTATION_RATE_MIN,
};
use sfwsvm::fchar::{CharSet, FChar};
use sfwsvm::fitness::{count_bits, fitness, fitness_single, penalty, sample_partial_word};
use sfwsvm::genetics::Gene;
use sfwsvm::oracle::{Oracle, PartialWord, Word};
use sfwsvm::rng::{rng_coin, rng_range};
use sfwsvm::svm::{SvmInstruction, SvmInstructionTy};

fn rng_from(seed: u64) -> rand::rngs::StdRng {
    rand::rngs::StdRng::seed_from_u64(seed)
}

fn word(s: &str) -> Word {
    Word::from_bytes(&s.as_bytes().to_vec()).unwrap()
}

#[test]
fn count_bits_counts_ones() {
    assert_eq!(count_bits(0), 0);
    assert_eq!(count_bits(0b1011), 3);
    assert_eq!(count_bits(1 << 31), 1);
    assert_eq!(count_bits(u32::MAX), 32);
}

#[test]
fn penalty_of_exact_guess_is_zero() {
    let truth = CharSet::empty()
        .set(FChar::from_char('b').unwrap())
        .set(FChar::from_char('q').unwrap());
    assert_eq!(penalty(truth.bits(), truth.bits()), 0);
    assert_eq!(penalty(0, 0), 0);
}

#[test]
fn penalty_of_one_false_positive() {
    let truth = CharSet::empty().set(FChar::from_char('b').unwrap());
    let guess = truth.set(FChar::from_char('c').unwrap());
    assert_eq!(penalty(guess.bits(), truth.bits()), 1_000_000);
}

#[test]
fn penalty_of_one_false_negative() {
    let truth = CharSet::empty()
        .set(FChar::from_char('b').unwrap())
        .set(FChar::from_char('c').unwrap());
    let guess = truth.clear(FChar::from_char('c').unwrap());
    assert_eq!(penalty(guess.bits(), truth.bits()), 16_000_000);
}

#[test]
fn empty_program_scores_one_false_negative_per_trial() {
    // End to end: a corpus of only the repeated word "bbbbbbbbbb" makes
    // every sampled partial word's true set {b}; a program with no
    // instructions leaves the output register 0, one false negative, so
    // every trial costs (0*1000 + 1*4000)^2 = 16,000,000 and the scaled
    // aggregate over `trials` trials is 10 * 16,000,000 * trials with a
    // zero length penalty.
    let words = vec![word("bbbbbbbbbb")];
    let oracle = Oracle::build(&words);
    let mut rng = rng_from(11);
    let trials = 25;
    let empty: Vec<SvmInstruction> = Vec::new();
    let scaled = fitness(&empty, &oracle, &mut rng, trials).unwrap();
    assert_eq!(scaled, 10 * 16_000_000 * trials as u64);
}

#[test]
fn fitness_single_on_known_word() {
    let words = vec![word("bbbbbbbbbb")];
    let oracle = Oracle::build(&words);
    let w = word("bbbbbbbbbb");
    let pw = PartialWord::from_word_prefix(&w, 2);
    let empty: Vec<SvmInstruction> = Vec::new();
    assert_eq!(fitness_single(&empty, &oracle, &pw), 16_000_000);

    // A program that answers exactly {b} (bit 2 of the output register)
    // scores a perfect zero on the same word.
    let perfect = vec![SvmInstruction { ty: SvmInstructionTy::Seb, dest: 0, src: 2 }];
    assert_eq!(fitness_single(&perfect, &oracle, &pw), 0);
}

#[test]
fn parsimony_term_counts_instructions() {
    let words = vec![word("bbbbbbbbbb")];
    let oracle = Oracle::build(&words);
    let mut rng = rng_from(3);
    let trials = 10;
    let perfect = vec![SvmInstruction { ty: SvmInstructionTy::Seb, dest: 0, src: 2 }];
    // Every trial scores 0; only the length penalty remains:
    // scaled = 10*0 + len*trials.
    let scaled = fitness(&perfect, &oracle, &mut rng, trials).unwrap();
    assert_eq!(scaled, 1 * trials as u64);
}

#[test]
fn sampler_follows_the_oracle() {
    let words = vec![word("abcdefghij")];
    let oracle = Oracle::build(&words);
    let mut rng = rng_from(17);
    let pw = sample_partial_word(&oracle, &mut rng, 4).unwrap();
    // Only one word was observed, so the sample must follow it.
    for (i, v) in [1u8, 2, 3, 4].iter().enumerate() {
        assert_eq!(pw.slot(i), *v);
    }
    assert_eq!(pw.slot(4), 0);
}

#[test]
fn random_genome_is_sorted_and_fresh() {
    let mut rng = rng_from(23);
    let g = random_genome(&mut rng, INSTRUCTION_SIZE_INIT);
    assert_eq!(g.genes.len(), INSTRUCTION_SIZE_INIT);
    assert_eq!(g.mutation_rate, MUTATION_RATE_INIT);
    assert!(g.fitness.is_none());
    for w in g.genes.windows(2) {
        assert!(w[0].order <= w[1].order);
    }
}

#[test]
fn insert_sorted_keeps_order() {
    let mut rng = rng_from(31);
    let mut genes: Vec<Gene> = Vec::new();
    for _ in 0..50 {
        let g = random_gene(&mut rng);
        insert_sorted(&mut genes, g);
    }
    assert_eq!(genes.len(), 50);
    for w in genes.windows(2) {
        assert!(w[0].order <= w[1].order);
    }
}

#[test]
fn child_rate_stays_in_band() {
    let mut rng = rng_from(41);
    for _ in 0..200 {
        let r = child_mutation_rate(&mut rng, MUTATION_RATE_MIN, MUTATION_RATE_MAX);
        assert!(MUTATION_RATE_MIN <= r && r <= MUTATION_RATE_MAX);
    }
    // Equal parents: the base is that rate exactly, before perturbation.
    let r = child_mutation_rate(&mut rng, 500_000, 500_000);
    assert!(475_000 <= r && r <= 525_000);
}

#[test]
fn mutate_keeps_rate_and_fitness() {
    let mut rng = rng_from(43);
    let mut g = random_genome(&mut rng, 8);
    mutate(&mut rng, &mut g);
    assert_eq!(g.mutation_rate, MUTATION_RATE_INIT);
    assert!(g.fitness.is_none());
    for w in g.genes.windows(2) {
        assert!(w[0].order <= w[1].order);
    }
}

#[test]
fn generation_cycle_runs() {
    let words = vec![word("aaaaaaaaaa"), word("abcdefghij"), word("jihgfedcba")];
    let oracle = Oracle::build(&words);
    let mut rng = rng_from(47);
    let n = 12;
    let mut pop = Population::init(&mut rng, n, 4);
    assert_eq!(pop.pool.len(), n);
    assert_eq!(pop.round, 1);

    pop.evaluate(&oracle, &mut rng, 20).unwrap();
    assert!(pop.pool.iter().all(|g| g.fitness.is_some()));

    pop.sort();
    for w in pop.pool.windows(2) {
        assert!(w[0].fitness.unwrap() <= w[1].fitness.unwrap());
    }
    let best = pop.pool[0].clone();

    pop.select(&mut rng);
    assert!(pop.pool.len() >= 1);
    assert!(pop.pool.len() <= n);
    // The explicit floor: the best genome always survives.
    assert_eq!(pop.pool[0].genes, best.genes);

    pop.reproduce(&mut rng, n);
    assert_eq!(pop.pool.len(), n);

    pop.advance_round();
    assert_eq!(pop.round, 2);
}

#[test]
fn default_constants_match_the_engine() {
    assert_eq!(GENEPOOL_SIZE, 1000);
    assert_eq!(sfwsvm::evolve::NUM_TRIALS, 1000);
    assert_eq!(sfwsvm::evolve::INSTRUCTION_SIZE_MAX, 1024);
}

#[test]
fn draws_fall_in_their_ranges() {
    let mut rng = rng_from(53);
    for _ in 0..500 {
        let r = rng_range(&mut rng, 5, 9);
        assert!((5..9).contains(&r));
    }
    assert_eq!(rng_range(&mut rng, 5, 6), 5);
    let _ = rng_coin(&mut rng);
    // A seeded generator is reproducible.
    let a: Vec<u64> = {
        let mut r1 = rng_from(99);
        (0..10).map(|_| rng_range(&mut r1, 0, 1000)).collect()
    };
    let b: Vec<u64> = {
        let mut r2 = rng_from(99);
        (0..10).map(|_| rng_range(&mut r2, 0, 1000)).collect()
    };
    assert_eq!(a, b);
}

#[test]
fn random_letters_cover_the_alphabet() {
    let mut rng = rng_from(59);
    let mut seen = [false; 27];
    for _ in 0..2000 {
        let f = FChar::random(&mut rng);
        assert!((1..=26).contains(&f.value()));
        seen[f.value() as usize] = true;
    }
    assert!(seen[1..=26].iter().all(|s| *s));
}
