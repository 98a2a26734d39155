//! How the search is shaped: every knob in one value.
use vstd::prelude::*;

use crate::hashing::xxh64_digest;
use crate::text::{
    be_bytes, digits, hex_padded, is_hex, law_digits_write_the_number, law_numbers_are_read_back,
    law_padding_writes_the_same, lemma_be_bytes_differ, parse_u32, parsed, push_be, written_value, zero_padded,
};

verus! {

/// One configuration of the search.
#[derive(Clone, Debug, PartialEq)]
pub struct Strategy {
    /// What the configuration is called.
    pub name: String,
    /// Weight factor of each tier: conjecture, support, background.
    pub tier_weight: [u64; 3],
    /// Every so many given clauses one is picked by age.
    pub pick_ratio: u64,
    /// Clauses far from the conjecture weigh more.
    pub goal_dist: bool,
    /// The largest extra factor for clauses far from the conjecture.
    pub goal_dist_w: u64,
    /// What a literal adds to a clause's weight.
    pub cw_lits: u64,
    /// What a leaf adds to a clause's weight.
    pub cw_size: u64,
    /// What a variable adds to a clause's weight.
    pub cw_vars: u64,
    /// What a Skolem application multiplies a clause's weight by.
    pub cw_skolem: u64,
    /// Which literal to resolve on: fewest candidates, most, or the first.
    pub lit_select: u8,
    /// The deepest term of a derived clause.
    pub max_depth: u8,
    /// The most leaves of a term of a derived clause.
    pub max_term_size: usize,
    /// The most literals of a derived clause, where a lane sets its own.
    pub derived_width_cap: Option<u8>,
    /// Paramodulants for each given clause.
    pub para_cap: usize,
    /// Rewrites of one term.
    pub demod_cap: u64,
    /// Clauses checked for each backward rewriting pass.
    pub bwd_demod_cap: usize,
    /// Seed of the symbol precedence; zero keeps the order of identities.
    pub prec_seed: u64,
    /// Literals of a clause that joins the forward closure.
    pub fc_max_premise_lits: usize,
    /// New units for each pair of a unit and a premise.
    pub fc_fanout: usize,
    /// The deepest conclusion of the forward closure.
    pub fc_flat_depth: u8,
    /// Rounds of the forward closure.
    pub fc_rounds: usize,
    /// Conclusions of the forward closure.
    pub fc_cap: usize,
    /// Branches for each joined negative literal.
    pub fc_branch: usize,
    /// Positive literals of a premise of the forward closure.
    pub fc_max_pos: usize,
    /// Algebraic patterns are mined and used.
    pub schema: bool,
    /// Bindings are decoded where that is possible.
    pub decode: bool,
    /// New clauses are rewritten by the oriented equations.
    pub demod: bool,
    /// Old clauses are rewritten by a new oriented equation.
    pub bwd_demod: bool,
    /// Resolution works on maximal literals alone.
    pub ordered_resolution: bool,
    /// A clause that another subsumes is dropped.
    pub subsumption: bool,
    /// Subsumption is filtered by joining equalities across literals.
    pub subs_join: bool,
    /// Subterms carry rows for the decoding filter.
    pub subterm_rows: bool,
    /// Ordered superposition.
    pub superposition: bool,
    /// Equality factoring.
    pub eq_factoring: bool,
    /// The background equations are completed first.
    pub bg_completion: bool,
    /// Equations that the completion may add.
    pub bg_completion_budget: usize,
    /// The taxonomy relations are found by their defining sentences.
    pub recognize_roles: bool,
    /// Attitudes distribute over quoted conjunctions.
    pub modal_k: bool,
    /// Background clauses are given clauses too.
    pub full_saturation: bool,
    /// Saturation counts as a no only where the run was complete.
    pub strict_saturation: bool,
    /// Sentences near the goal are added to the selection.
    pub liu_rescue: bool,
    /// Rounds of that.
    pub liu_rounds: usize,
    /// Sentences added in each round.
    pub liu_top_k: usize,
    /// Definitions that the goal needs are added to the selection.
    pub def_completion: bool,
    /// Rounds of that.
    pub defcomp_rounds: usize,
    /// Sentences added in all rounds.
    pub defcomp_max_adds: usize,
    /// Sentences added for each symbol in a round.
    pub defcomp_per_sym: usize,
    /// Bookkeeping sentences are left out of the selection.
    pub head_filter: bool,
    /// The loaded background is kept for the next run.
    pub bg_snapshot: bool,
    /// Clauses false in a model of the background come first among equals.
    pub semantic_guide: bool,
    /// Derived clauses are built only once they are selected.
    pub deferred_passive: bool,
    /// How many clauses may wait unbuilt.
    pub deferred_cap: u32,
}

/// A configuration, its name as a sequence.
pub struct StrategyView {
    pub name: Seq<char>,
    pub tier_weight: Seq<u64>,
    pub pick_ratio: u64,
    pub goal_dist: bool,
    pub goal_dist_w: u64,
    pub cw_lits: u64,
    pub cw_size: u64,
    pub cw_vars: u64,
    pub cw_skolem: u64,
    pub lit_select: u8,
    pub max_depth: u8,
    pub max_term_size: usize,
    pub derived_width_cap: Option<u8>,
    pub para_cap: usize,
    pub demod_cap: u64,
    pub bwd_demod_cap: usize,
    pub prec_seed: u64,
    pub fc_max_premise_lits: usize,
    pub fc_fanout: usize,
    pub fc_flat_depth: u8,
    pub fc_rounds: usize,
    pub fc_cap: usize,
    pub fc_branch: usize,
    pub fc_max_pos: usize,
    pub schema: bool,
    pub decode: bool,
    pub demod: bool,
    pub bwd_demod: bool,
    pub ordered_resolution: bool,
    pub subsumption: bool,
    pub subs_join: bool,
    pub subterm_rows: bool,
    pub superposition: bool,
    pub eq_factoring: bool,
    pub bg_completion: bool,
    pub bg_completion_budget: usize,
    pub recognize_roles: bool,
    pub modal_k: bool,
    pub full_saturation: bool,
    pub strict_saturation: bool,
    pub liu_rescue: bool,
    pub liu_rounds: usize,
    pub liu_top_k: usize,
    pub def_completion: bool,
    pub defcomp_rounds: usize,
    pub defcomp_max_adds: usize,
    pub defcomp_per_sym: usize,
    pub head_filter: bool,
    pub bg_snapshot: bool,
    pub semantic_guide: bool,
    pub deferred_passive: bool,
    pub deferred_cap: u32,
}

impl View for Strategy {
    type V = StrategyView;

    open spec fn view(&self) -> StrategyView {
        StrategyView {
            name: self.name@,
            tier_weight: self.tier_weight@,
            pick_ratio: self.pick_ratio,
            goal_dist: self.goal_dist,
            goal_dist_w: self.goal_dist_w,
            cw_lits: self.cw_lits,
            cw_size: self.cw_size,
            cw_vars: self.cw_vars,
            cw_skolem: self.cw_skolem,
            lit_select: self.lit_select,
            max_depth: self.max_depth,
            max_term_size: self.max_term_size,
            derived_width_cap: self.derived_width_cap,
            para_cap: self.para_cap,
            demod_cap: self.demod_cap,
            bwd_demod_cap: self.bwd_demod_cap,
            prec_seed: self.prec_seed,
            fc_max_premise_lits: self.fc_max_premise_lits,
            fc_fanout: self.fc_fanout,
            fc_flat_depth: self.fc_flat_depth,
            fc_rounds: self.fc_rounds,
            fc_cap: self.fc_cap,
            fc_branch: self.fc_branch,
            fc_max_pos: self.fc_max_pos,
            schema: self.schema,
            decode: self.decode,
            demod: self.demod,
            bwd_demod: self.bwd_demod,
            ordered_resolution: self.ordered_resolution,
            subsumption: self.subsumption,
            subs_join: self.subs_join,
            subterm_rows: self.subterm_rows,
            superposition: self.superposition,
            eq_factoring: self.eq_factoring,
            bg_completion: self.bg_completion,
            bg_completion_budget: self.bg_completion_budget,
            recognize_roles: self.recognize_roles,
            modal_k: self.modal_k,
            full_saturation: self.full_saturation,
            strict_saturation: self.strict_saturation,
            liu_rescue: self.liu_rescue,
            liu_rounds: self.liu_rounds,
            liu_top_k: self.liu_top_k,
            def_completion: self.def_completion,
            defcomp_rounds: self.defcomp_rounds,
            defcomp_max_adds: self.defcomp_max_adds,
            defcomp_per_sym: self.defcomp_per_sym,
            head_filter: self.head_filter,
            bg_snapshot: self.bg_snapshot,
            semantic_guide: self.semantic_guide,
            deferred_passive: self.deferred_passive,
            deferred_cap: self.deferred_cap,
        }
    }
}

/// The configuration to start from.
pub open spec fn base_view() -> StrategyView {
    StrategyView {
        name: "default"@,
        tier_weight: seq![1u64, 2, 2],
        pick_ratio: 5,
        goal_dist: false,
        goal_dist_w: 2,
        cw_lits: 1,
        cw_size: 1,
        cw_vars: 2,
        cw_skolem: 1,
        lit_select: 0,
        max_depth: 5,
        max_term_size: 64,
        derived_width_cap: None,
        para_cap: 200,
        demod_cap: 64,
        bwd_demod_cap: 10_000,
        prec_seed: 0,
        fc_max_premise_lits: 6,
        fc_fanout: 16,
        fc_flat_depth: 2,
        fc_rounds: 6,
        fc_cap: 4000,
        fc_branch: 8,
        fc_max_pos: 1,
        schema: true,
        decode: true,
        demod: false,
        bwd_demod: true,
        ordered_resolution: false,
        subsumption: false,
        subs_join: false,
        subterm_rows: false,
        superposition: false,
        eq_factoring: false,
        bg_completion: false,
        bg_completion_budget: 256,
        recognize_roles: false,
        modal_k: true,
        full_saturation: false,
        strict_saturation: false,
        liu_rescue: true,
        liu_rounds: 1,
        liu_top_k: 32,
        def_completion: true,
        defcomp_rounds: 4,
        defcomp_max_adds: 64,
        defcomp_per_sym: 8,
        head_filter: false,
        bg_snapshot: true,
        semantic_guide: false,
        deferred_passive: false,
        deferred_cap: 2_000_000,
    }
}


/// The step of the stream of numbers behind a sample.
pub const GAMMA: u64 = 0x9E37_79B9_7F4A_7C15;

/// The state of the stream after so many steps.
pub open spec fn stream_state(seed: u64, n: nat) -> u64
    decreases n,
{
    if n == 0 {
        seed
    } else {
        stream_state(seed, (n - 1) as nat).wrapping_add(GAMMA)
    }
}

/// The number that a state of the stream gives.
pub open spec fn stirred(x: u64) -> u64 {
    let a = (x ^ (x >> 30)).wrapping_mul(0xBF58_476D_1CE4_E5B9);
    let b = (a ^ (a >> 27)).wrapping_mul(0x94D0_49BB_1331_11EB);
    b ^ (b >> 31)
}

/// The number at the place in the stream.
pub open spec fn drawn(seed: u64, k: nat) -> u64 {
    stirred(stream_state(seed, k + 1))
}

/// The item of the list that the number at the place picks.
pub open spec fn chosen(xs: Seq<u64>, seed: u64, k: nat) -> u64 {
    xs[drawn(seed, k) as int % xs.len() as int]
}

/// The number at the place falls under the percentage.
pub open spec fn falls(seed: u64, k: nat, percent: u64) -> bool {
    drawn(seed, k) % 100 < percent
}

/// The configuration that a seed gives.
pub open spec fn sample_view(seed: u64) -> StrategyView {
    StrategyView {
        name: "rnd-"@ + zero_padded(digits(seed as nat, 16), 8),
        tier_weight: seq![
            chosen(seq![1u64, 1, 1, 2], seed, 0),
            chosen(seq![1u64, 2, 2, 3, 4], seed, 1),
            chosen(seq![1u64, 2, 2, 3, 4, 6, 8], seed, 2),
        ],
        pick_ratio: chosen(seq![2u64, 3, 4, 5, 6, 8, 10], seed, 3),
        goal_dist: falls(seed, 4, 25),
        goal_dist_w: chosen(seq![1u64, 2, 3, 4], seed, 5),
        cw_lits: chosen(seq![0u64, 1, 1, 2, 3], seed, 6),
        cw_size: chosen(seq![1u64, 1, 2, 3], seed, 7),
        cw_vars: chosen(seq![0u64, 1, 2, 2, 4], seed, 8),
        cw_skolem: chosen(seq![0u64, 1, 1, 2, 4], seed, 9),
        lit_select: chosen(seq![0u64, 0, 0, 1, 2], seed, 10) as u8,
        max_depth: chosen(seq![4u64, 5, 6, 7], seed, 11) as u8,
        max_term_size: chosen(seq![48u64, 64, 96, 128], seed, 12) as usize,
        derived_width_cap: None,
        para_cap: chosen(seq![50u64, 100, 200, 400, 800], seed, 13) as usize,
        demod_cap: chosen(seq![32u64, 64, 128, 256], seed, 14),
        bwd_demod_cap: 10_000,
        prec_seed: chosen(seq![0u64, 0, 0, 0xA5A5_1234, 0x1357_9BDF, 0xF00D_CAFE], seed, 15),
        fc_max_premise_lits: chosen(seq![4u64, 6, 8], seed, 16) as usize,
        fc_fanout: chosen(seq![8u64, 16, 32, 64], seed, 17) as usize,
        fc_flat_depth: chosen(seq![1u64, 2, 3], seed, 18) as u8,
        fc_rounds: chosen(seq![2u64, 4, 6, 8, 10], seed, 19) as usize,
        fc_cap: chosen(seq![2000u64, 4000, 8000, 16000], seed, 20) as usize,
        fc_branch: chosen(seq![4u64, 8, 16], seed, 21) as usize,
        fc_max_pos: chosen(seq![1u64, 1, 2, 3], seed, 22) as usize,
        schema: falls(seed, 23, 85),
        decode: falls(seed, 24, 90),
        demod: falls(seed, 25, 35),
        bwd_demod: false,
        ordered_resolution: falls(seed, 26, 15),
        subsumption: falls(seed, 27, 20),
        subs_join: false,
        subterm_rows: false,
        superposition: falls(seed, 28, 10),
        eq_factoring: falls(seed, 29, 10),
        bg_completion: falls(seed, 30, 10),
        bg_completion_budget: chosen(seq![128u64, 256, 512], seed, 31) as usize,
        recognize_roles: false,
        modal_k: true,
        full_saturation: false,
        strict_saturation: false,
        liu_rescue: falls(seed, 32, 85),
        liu_rounds: chosen(seq![1u64, 1, 1, 2], seed, 33) as usize,
        liu_top_k: chosen(seq![16u64, 32, 64, 128], seed, 34) as usize,
        def_completion: falls(seed, 35, 85),
        defcomp_rounds: chosen(seq![2u64, 4, 6, 8], seed, 36) as usize,
        defcomp_max_adds: chosen(seq![32u64, 64, 128, 256], seed, 37) as usize,
        defcomp_per_sym: chosen(seq![4u64, 8, 16], seed, 38) as usize,
        head_filter: falls(seed, 39, 15),
        bg_snapshot: true,
        semantic_guide: falls(seed, 40, 20),
        deferred_passive: false,
        deferred_cap: 2_000_000,
    }
}

/// A stream of numbers that its seed fixes.
struct Draws {
    state: u64,
    seed: Ghost<u64>,
    count: Ghost<nat>,
}

impl Draws {
    spec fn wf(&self) -> bool {
        self.state == stream_state(self.seed@, self.count@)
    }

    fn new(seed: u64) -> (r: Draws)
        ensures
            r.wf(),
            r.seed@ == seed,
            r.count@ == 0,
    {
        Draws { state: seed, seed: Ghost(seed), count: Ghost(0) }
    }

    fn next(&mut self) -> (x: u64)
        requires
            old(self).wf(),
        ensures
            final(self).wf(),
            final(self).seed == old(self).seed,
            final(self).count@ == old(self).count@ + 1,
            x == drawn(old(self).seed@, old(self).count@),
    {
        let state: u64 = self.state.wrapping_add(GAMMA);
        self.state = state;
        self.count = Ghost(self.count@ + 1);
        let a: u64 = (state ^ (state >> 30)).wrapping_mul(0xBF58_476D_1CE4_E5B9);
        let b: u64 = (a ^ (a >> 27)).wrapping_mul(0x94D0_49BB_1331_11EB);
        b ^ (b >> 31)
    }

    fn pick<const N: usize>(&mut self, xs: [u64; N]) -> (x: u64)
        requires
            old(self).wf(),
            N > 0,
        ensures
            final(self).wf(),
            final(self).seed == old(self).seed,
            final(self).count@ == old(self).count@ + 1,
            x == chosen(xs@, old(self).seed@, old(self).count@),
    {
        let n: u64 = self.next();
        let i: usize = (n % (N as u64)) as usize;
        xs[i]
    }

    fn chance(&mut self, percent: u64) -> (b: bool)
        requires
            old(self).wf(),
        ensures
            final(self).wf(),
            final(self).seed == old(self).seed,
            final(self).count@ == old(self).count@ + 1,
            b == falls(old(self).seed@, old(self).count@, percent),
    {
        self.next() % 100 < percent
    }
}

impl Strategy {
    /// The configuration to start from.
    pub fn base() -> (s: Strategy)
        ensures
            s@ == base_view(),
    {
        let s = Strategy {
            name: "default".to_owned(),
            tier_weight: [1, 2, 2],
            pick_ratio: 5,
            goal_dist: false,
            goal_dist_w: 2,
            cw_lits: 1,
            cw_size: 1,
            cw_vars: 2,
            cw_skolem: 1,
            lit_select: 0,
            max_depth: 5,
            max_term_size: 64,
            derived_width_cap: None,
            para_cap: 200,
            demod_cap: 64,
            bwd_demod_cap: 10_000,
            prec_seed: 0,
            fc_max_premise_lits: 6,
            fc_fanout: 16,
            fc_flat_depth: 2,
            fc_rounds: 6,
            fc_cap: 4000,
            fc_branch: 8,
            fc_max_pos: 1,
            schema: true,
            decode: true,
            demod: false,
            bwd_demod: true,
            ordered_resolution: false,
            subsumption: false,
            subs_join: false,
            subterm_rows: false,
            superposition: false,
            eq_factoring: false,
            bg_completion: false,
            bg_completion_budget: 256,
            recognize_roles: false,
            modal_k: true,
            full_saturation: false,
            strict_saturation: false,
            liu_rescue: true,
            liu_rounds: 1,
            liu_top_k: 32,
            def_completion: true,
            defcomp_rounds: 4,
            defcomp_max_adds: 64,
            defcomp_per_sym: 8,
            head_filter: false,
            bg_snapshot: true,
            semantic_guide: false,
            deferred_passive: false,
            deferred_cap: 2_000_000,
        };
        assert(s@.tier_weight =~= seq![1u64, 2, 2]);
        s
    }

    /// The configuration under another name.
    pub fn named(self, name: &str) -> (s: Strategy)
        ensures
            s@ == (StrategyView { name: name@, ..self@ }),
    {
        let mut s = self;
        s.name = name.to_owned();
        s
    }

    /// The configuration that the seed gives.
    pub fn sample(seed: u64) -> (s: Strategy)
        ensures
            s@ == sample_view(seed),
    {
        let mut r = Draws::new(seed);
        let mut name: String = "rnd-".to_owned();
        let hex: String = hex_padded(seed, 8);
        name.append(hex.as_str());
        let xs: [u64; 4] = [1, 1, 1, 2];
        assert(xs@ =~= seq![1u64, 1, 1, 2]);
        let tier_0: u64 = r.pick(xs);
        let xs: [u64; 5] = [1, 2, 2, 3, 4];
        assert(xs@ =~= seq![1u64, 2, 2, 3, 4]);
        let tier_1: u64 = r.pick(xs);
        let xs: [u64; 7] = [1, 2, 2, 3, 4, 6, 8];
        assert(xs@ =~= seq![1u64, 2, 2, 3, 4, 6, 8]);
        let tier_2: u64 = r.pick(xs);
        let xs: [u64; 7] = [2, 3, 4, 5, 6, 8, 10];
        assert(xs@ =~= seq![2u64, 3, 4, 5, 6, 8, 10]);
        let pick_ratio: u64 = r.pick(xs);
        let goal_dist: bool = r.chance(25);
        let xs: [u64; 4] = [1, 2, 3, 4];
        assert(xs@ =~= seq![1u64, 2, 3, 4]);
        let goal_dist_w: u64 = r.pick(xs);
        let xs: [u64; 5] = [0, 1, 1, 2, 3];
        assert(xs@ =~= seq![0u64, 1, 1, 2, 3]);
        let cw_lits: u64 = r.pick(xs);
        let xs: [u64; 4] = [1, 1, 2, 3];
        assert(xs@ =~= seq![1u64, 1, 2, 3]);
        let cw_size: u64 = r.pick(xs);
        let xs: [u64; 5] = [0, 1, 2, 2, 4];
        assert(xs@ =~= seq![0u64, 1, 2, 2, 4]);
        let cw_vars: u64 = r.pick(xs);
        let xs: [u64; 5] = [0, 1, 1, 2, 4];
        assert(xs@ =~= seq![0u64, 1, 1, 2, 4]);
        let cw_skolem: u64 = r.pick(xs);
        let xs: [u64; 5] = [0, 0, 0, 1, 2];
        assert(xs@ =~= seq![0u64, 0, 0, 1, 2]);
        let lit_select: u8 = r.pick(xs) as u8;
        let xs: [u64; 4] = [4, 5, 6, 7];
        assert(xs@ =~= seq![4u64, 5, 6, 7]);
        let max_depth: u8 = r.pick(xs) as u8;
        let xs: [u64; 4] = [48, 64, 96, 128];
        assert(xs@ =~= seq![48u64, 64, 96, 128]);
        let max_term_size: usize = r.pick(xs) as usize;
        let xs: [u64; 5] = [50, 100, 200, 400, 800];
        assert(xs@ =~= seq![50u64, 100, 200, 400, 800]);
        let para_cap: usize = r.pick(xs) as usize;
        let xs: [u64; 4] = [32, 64, 128, 256];
        assert(xs@ =~= seq![32u64, 64, 128, 256]);
        let demod_cap: u64 = r.pick(xs);
        let xs: [u64; 6] = [0, 0, 0, 0xA5A5_1234, 0x1357_9BDF, 0xF00D_CAFE];
        assert(xs@ =~= seq![0u64, 0, 0, 0xA5A5_1234, 0x1357_9BDF, 0xF00D_CAFE]);
        let prec_seed: u64 = r.pick(xs);
        let xs: [u64; 3] = [4, 6, 8];
        assert(xs@ =~= seq![4u64, 6, 8]);
        let fc_max_premise_lits: usize = r.pick(xs) as usize;
        let xs: [u64; 4] = [8, 16, 32, 64];
        assert(xs@ =~= seq![8u64, 16, 32, 64]);
        let fc_fanout: usize = r.pick(xs) as usize;
        let xs: [u64; 3] = [1, 2, 3];
        assert(xs@ =~= seq![1u64, 2, 3]);
        let fc_flat_depth: u8 = r.pick(xs) as u8;
        let xs: [u64; 5] = [2, 4, 6, 8, 10];
        assert(xs@ =~= seq![2u64, 4, 6, 8, 10]);
        let fc_rounds: usize = r.pick(xs) as usize;
        let xs: [u64; 4] = [2000, 4000, 8000, 16000];
        assert(xs@ =~= seq![2000u64, 4000, 8000, 16000]);
        let fc_cap: usize = r.pick(xs) as usize;
        let xs: [u64; 3] = [4, 8, 16];
        assert(xs@ =~= seq![4u64, 8, 16]);
        let fc_branch: usize = r.pick(xs) as usize;
        let xs: [u64; 4] = [1, 1, 2, 3];
        assert(xs@ =~= seq![1u64, 1, 2, 3]);
        let fc_max_pos: usize = r.pick(xs) as usize;
        let schema: bool = r.chance(85);
        let decode: bool = r.chance(90);
        let demod: bool = r.chance(35);
        let ordered_resolution: bool = r.chance(15);
        let subsumption: bool = r.chance(20);
        let superposition: bool = r.chance(10);
        let eq_factoring: bool = r.chance(10);
        let bg_completion: bool = r.chance(10);
        let xs: [u64; 3] = [128, 256, 512];
        assert(xs@ =~= seq![128u64, 256, 512]);
        let bg_completion_budget: usize = r.pick(xs) as usize;
        let liu_rescue: bool = r.chance(85);
        let xs: [u64; 4] = [1, 1, 1, 2];
        assert(xs@ =~= seq![1u64, 1, 1, 2]);
        let liu_rounds: usize = r.pick(xs) as usize;
        let xs: [u64; 4] = [16, 32, 64, 128];
        assert(xs@ =~= seq![16u64, 32, 64, 128]);
        let liu_top_k: usize = r.pick(xs) as usize;
        let def_completion: bool = r.chance(85);
        let xs: [u64; 4] = [2, 4, 6, 8];
        assert(xs@ =~= seq![2u64, 4, 6, 8]);
        let defcomp_rounds: usize = r.pick(xs) as usize;
        let xs: [u64; 4] = [32, 64, 128, 256];
        assert(xs@ =~= seq![32u64, 64, 128, 256]);
        let defcomp_max_adds: usize = r.pick(xs) as usize;
        let xs: [u64; 3] = [4, 8, 16];
        assert(xs@ =~= seq![4u64, 8, 16]);
        let defcomp_per_sym: usize = r.pick(xs) as usize;
        let head_filter: bool = r.chance(15);
        let semantic_guide: bool = r.chance(20);
        let s = Strategy {
            name,
            tier_weight: [tier_0, tier_1, tier_2],
            pick_ratio,
            goal_dist,
            goal_dist_w,
            cw_lits,
            cw_size,
            cw_vars,
            cw_skolem,
            lit_select,
            max_depth,
            max_term_size,
            derived_width_cap: None,
            para_cap,
            demod_cap,
            bwd_demod_cap: 10_000,
            prec_seed,
            fc_max_premise_lits,
            fc_fanout,
            fc_flat_depth,
            fc_rounds,
            fc_cap,
            fc_branch,
            fc_max_pos,
            schema,
            decode,
            demod,
            bwd_demod: false,
            ordered_resolution,
            subsumption,
            subs_join: false,
            subterm_rows: false,
            superposition,
            eq_factoring,
            bg_completion,
            bg_completion_budget,
            recognize_roles: false,
            modal_k: true,
            full_saturation: false,
            strict_saturation: false,
            liu_rescue,
            liu_rounds,
            liu_top_k,
            def_completion,
            defcomp_rounds,
            defcomp_max_adds,
            defcomp_per_sym,
            head_filter,
            bg_snapshot: true,
            semantic_guide,
            deferred_passive: false,
            deferred_cap: 2_000_000,
        };
        assert(s@.tier_weight =~= sample_view(seed).tier_weight);
        assert(s@.name == sample_view(seed).name);
        s
    }

    /// The configuration to start from, changed as the switches say.
    pub fn from_env(sw: &Switches) -> (s: Strategy)
        ensures
            s@ == switched_view(*sw),
    {
        let b = Strategy::base();
        let s = Strategy {
            schema: b.schema && !sw.no_schema,
            decode: b.decode && !sw.no_decode,
            goal_dist: b.goal_dist || sw.goaldist,
            liu_rescue: b.liu_rescue && !sw.no_liu,
            def_completion: b.def_completion && !sw.no_liu,
            head_filter: b.head_filter || sw.headfilter,
            bg_snapshot: b.bg_snapshot && !sw.no_bg_snapshot,
            semantic_guide: b.semantic_guide || sw.guide,
            modal_k: b.modal_k && !sw.no_modal_k,
            demod: b.demod || sw.demod,
            bwd_demod: flip(sw.no_bwd_demod, sw.bwd_demod, b.bwd_demod),
            subs_join: flip(sw.no_subs_join, sw.subs_join, b.subs_join),
            subterm_rows: flip(sw.no_subterm_rows, sw.subterm_rows, b.subterm_rows),
            deferred_passive: flip(sw.no_deferred_passive, sw.deferred_passive, b.deferred_passive),
            deferred_cap: cap_or(&sw.deferred_cap, b.deferred_cap),
            ..b
        };
        s
    }

    /// The configuration for a problem that stands alone: the complete
    /// calculus, with the switches for it honoured.
    pub fn tptp(sw: &Switches) -> (s: Strategy)
        ensures
            s@ == tptp_view(*sw),
    {
        let b = Strategy::base();
        let s = Strategy {
            full_saturation: true,
            strict_saturation: true,
            superposition: true,
            eq_factoring: true,
            subsumption: true,
            demod: sw.demod,
            bwd_demod: flip(sw.no_bwd_demod, sw.bwd_demod, true),
            subs_join: flip(sw.no_subs_join, sw.subs_join, b.subs_join),
            subterm_rows: flip(sw.no_subterm_rows, sw.subterm_rows, b.subterm_rows),
            semantic_guide: sw.guide,
            deferred_passive: flip(sw.no_deferred_passive, sw.deferred_passive, false),
            deferred_cap: cap_or(&sw.deferred_cap, b.deferred_cap),
            ..b
        };
        s.named("tptp-complete")
    }

    /// The configurations to try one after another on a problem that stands
    /// alone.
    pub fn tptp_lanes(sw: &Switches) -> (r: Vec<Strategy>)
        ensures
            lane_views(r@) == tptp_lane_views(*sw),
    {
        let mut r: Vec<Strategy> = Vec::new();
        assert(lane_views(r@) =~= Seq::empty());
        let s = Strategy::tptp(sw).named("tptp-complete");
        push_lane(&mut r, s);
        let s = Strategy { demod: true, bwd_demod: !sw.no_bwd_demod, ..Strategy::tptp(sw) };
        push_lane(&mut r, s.named("tptp-demod"));
        let s = Strategy { goal_dist: true, bg_snapshot: false, ..Strategy::tptp(sw) };
        push_lane(&mut r, s.named("tptp-goaldist"));
        if !sw.no_deferred_passive && !Strategy::tptp(sw).deferred_passive {
            let s = Strategy { deferred_passive: true, deferred_cap: 2_750_000, ..Strategy::tptp(sw) };
            push_lane(&mut r, s.named("tptp-deferred"));
        }
        let s = Strategy { lit_select: 1, ..Strategy::tptp(sw) };
        push_lane(&mut r, s.named("tptp-litselect"));
        let s = Strategy { prec_seed: 0xA5A5_1234, ..Strategy::tptp(sw) };
        push_lane(&mut r, s.named("tptp-precseed"));
        assert(lane_views(r@) =~= tptp_lane_views(*sw));
        r
    }

    /// A number that two configurations share where they load the background
    /// alike.
    pub fn bg_fingerprint(&self) -> (h: u64)
        ensures
            h == fingerprint(self@),
    {
        let mut buf: Vec<u8> = Vec::new();
        push_be(&mut buf, self.tier_weight[0]);
        push_be(&mut buf, self.tier_weight[1]);
        push_be(&mut buf, self.tier_weight[2]);
        push_be(&mut buf, self.max_depth as u64);
        push_be(&mut buf, self.max_term_size as u64);
        push_be(&mut buf, bit(self.schema));
        push_be(&mut buf, bit(self.goal_dist));
        push_be(&mut buf, self.goal_dist_w);
        assert(buf@ =~= background_bytes(self@));
        xxhash_rust::xxh64::xxh64(buf.as_slice(), 0x57A7_E6F0)
    }

    /// A few configurations that differ much, the most successful first.
    pub fn default_portfolio() -> (r: Vec<Strategy>)
        ensures
            lane_views(r@) == portfolio_views(),
    {
        let mut r: Vec<Strategy> = Vec::new();
        assert(lane_views(r@) =~= Seq::empty());
        push_lane(&mut r, Strategy::base());
        let s = Strategy { goal_dist: true, bg_snapshot: false, ..Strategy::base() };
        push_lane(&mut r, s.named("goal-directed"));
        let s = Strategy { tier_weight: [1, 1, 4], pick_ratio: 3, ..Strategy::base() };
        assert(s@.tier_weight =~= seq![1u64, 1, 4]);
        push_lane(&mut r, s.named("conjecture-heavy"));
        let s = Strategy { max_depth: 7, max_term_size: 96, para_cap: 400, fc_cap: 8000, ..Strategy::base() };
        push_lane(&mut r, s.named("deep-generation"));
        let s = Strategy { head_filter: true, liu_top_k: 64, defcomp_max_adds: 128, ..Strategy::base() };
        push_lane(&mut r, s.named("lean-selection"));
        let s = Strategy { schema: false, decode: false, ..Strategy::base() };
        push_lane(&mut r, s.named("plain-resolution"));
        assert(lane_views(r@) =~= portfolio_views());
        r
    }
}

/// Which switches are set.
#[derive(Clone, Debug)]
pub struct Switches {
    pub no_schema: bool,
    pub no_decode: bool,
    pub goaldist: bool,
    pub no_liu: bool,
    pub headfilter: bool,
    pub no_bg_snapshot: bool,
    pub guide: bool,
    pub no_modal_k: bool,
    pub demod: bool,
    pub no_bwd_demod: bool,
    pub bwd_demod: bool,
    pub no_subs_join: bool,
    pub subs_join: bool,
    pub no_subterm_rows: bool,
    pub subterm_rows: bool,
    pub no_deferred_passive: bool,
    pub deferred_passive: bool,
    /// The text given for how many clauses may wait unbuilt.
    pub deferred_cap: Option<String>,
}

impl Switches {
    /// No switch set.
    pub fn none() -> (s: Switches)
        ensures
            !s.no_schema && !s.no_decode && !s.goaldist && !s.no_liu && !s.headfilter && !s.no_bg_snapshot && !s.guide
                && !s.no_modal_k && !s.demod && !s.no_bwd_demod && !s.bwd_demod && !s.no_subs_join && !s.subs_join
                && !s.no_subterm_rows && !s.subterm_rows && !s.no_deferred_passive && !s.deferred_passive
                && s.deferred_cap is None,
    {
        Switches {
            no_schema: false,
            no_decode: false,
            goaldist: false,
            no_liu: false,
            headfilter: false,
            no_bg_snapshot: false,
            guide: false,
            no_modal_k: false,
            demod: false,
            no_bwd_demod: false,
            bwd_demod: false,
            no_subs_join: false,
            subs_join: false,
            no_subterm_rows: false,
            subterm_rows: false,
            no_deferred_passive: false,
            deferred_passive: false,
            deferred_cap: None,
        }
    }
}

/// Off if the first switch is set, else on if the second is, else as it was.
pub open spec fn flipped(off: bool, on: bool, default: bool) -> bool {
    !off && (on || default)
}

fn flip(off: bool, on: bool, default: bool) -> (r: bool)
    ensures
        r == flipped(off, on, default),
{
    if off {
        false
    } else if on {
        true
    } else {
        default
    }
}

/// The number that the text writes, if there is a text and it is one, else as
/// it was.
pub open spec fn capped(text: Option<String>, default: u32) -> u32 {
    match text {
        Some(s) => match parsed(s@, u32::MAX as nat) {
            Some(n) => n as u32,
            None => default,
        },
        None => default,
    }
}

fn cap_or(text: &Option<String>, default: u32) -> (r: u32)
    ensures
        r == capped(*text, default),
{
    match text {
        Some(s) => match parse_u32(s.as_str()) {
            Some(n) => n,
            None => default,
        },
        None => default,
    }
}

/// The configuration to start from, changed as the switches say.
pub open spec fn switched_view(sw: Switches) -> StrategyView {
    let b = base_view();
    StrategyView {
        schema: !sw.no_schema,
        decode: !sw.no_decode,
        goal_dist: sw.goaldist,
        liu_rescue: !sw.no_liu,
        def_completion: !sw.no_liu,
        head_filter: sw.headfilter,
        bg_snapshot: !sw.no_bg_snapshot,
        semantic_guide: sw.guide,
        modal_k: !sw.no_modal_k,
        demod: sw.demod,
        bwd_demod: flipped(sw.no_bwd_demod, sw.bwd_demod, true),
        subs_join: flipped(sw.no_subs_join, sw.subs_join, false),
        subterm_rows: flipped(sw.no_subterm_rows, sw.subterm_rows, false),
        deferred_passive: flipped(sw.no_deferred_passive, sw.deferred_passive, false),
        deferred_cap: capped(sw.deferred_cap, 2_000_000),
        ..b
    }
}

/// The configuration for a problem that stands alone.
pub open spec fn tptp_view(sw: Switches) -> StrategyView {
    let b = base_view();
    StrategyView {
        name: "tptp-complete"@,
        full_saturation: true,
        strict_saturation: true,
        superposition: true,
        eq_factoring: true,
        subsumption: true,
        demod: sw.demod,
        bwd_demod: flipped(sw.no_bwd_demod, sw.bwd_demod, true),
        subs_join: flipped(sw.no_subs_join, sw.subs_join, false),
        subterm_rows: flipped(sw.no_subterm_rows, sw.subterm_rows, false),
        semantic_guide: sw.guide,
        deferred_passive: flipped(sw.no_deferred_passive, sw.deferred_passive, false),
        deferred_cap: capped(sw.deferred_cap, 2_000_000),
        ..b
    }
}

/// The views of the configurations.
pub open spec fn lane_views(s: Seq<Strategy>) -> Seq<StrategyView> {
    Seq::new(s.len(), |i: int| s[i]@)
}

fn push_lane(r: &mut Vec<Strategy>, s: Strategy)
    ensures
        lane_views(final(r)@) == lane_views(old(r)@).push(s@),
{
    r.push(s);
    assert(lane_views(r@) =~= lane_views(old(r)@).push(s@));
}

/// The lane with the name that builds derived clauses late.
pub open spec fn deferred_lane(sw: Switches) -> StrategyView {
    StrategyView { name: "tptp-deferred"@, deferred_passive: true, deferred_cap: 2_750_000, ..tptp_view(sw) }
}

/// The configurations to try on a problem that stands alone: the one that
/// builds derived clauses late is left out where a switch forces that on or
/// off for all.
pub open spec fn tptp_lane_views(sw: Switches) -> Seq<StrategyView> {
    let t = tptp_view(sw);
    let first = seq![
        t,
        StrategyView { name: "tptp-demod"@, demod: true, bwd_demod: !sw.no_bwd_demod, ..t },
        StrategyView { name: "tptp-goaldist"@, goal_dist: true, bg_snapshot: false, ..t },
    ];
    let last = seq![
        StrategyView { name: "tptp-litselect"@, lit_select: 1, ..t },
        StrategyView { name: "tptp-precseed"@, prec_seed: 0xA5A5_1234, ..t },
    ];
    if sw.no_deferred_passive || sw.deferred_passive {
        first + last
    } else {
        first.push(deferred_lane(sw)) + last
    }
}

/// The default portfolio.
pub open spec fn portfolio_views() -> Seq<StrategyView> {
    let b = base_view();
    seq![
        b,
        StrategyView { name: "goal-directed"@, goal_dist: true, bg_snapshot: false, ..b },
        StrategyView { name: "conjecture-heavy"@, tier_weight: seq![1u64, 1, 4], pick_ratio: 3, ..b },
        StrategyView {
            name: "deep-generation"@,
            max_depth: 7,
            max_term_size: 96,
            para_cap: 400,
            fc_cap: 8000,
            ..b
        },
        StrategyView { name: "lean-selection"@, head_filter: true, liu_top_k: 64, defcomp_max_adds: 128, ..b },
        StrategyView { name: "plain-resolution"@, schema: false, decode: false, ..b },
    ]
}

/// One for what is set.
pub open spec fn bit_of(b: bool) -> u64 {
    if b {
        1
    } else {
        0
    }
}

fn bit(b: bool) -> (r: u64)
    ensures
        r == bit_of(b),
{
    if b {
        1
    } else {
        0
    }
}

/// What shapes the loading of the background, as bytes.
pub open spec fn background_bytes(s: StrategyView) -> Seq<u8> {
    be_bytes(s.tier_weight[0]) + be_bytes(s.tier_weight[1]) + be_bytes(s.tier_weight[2]) + be_bytes(s.max_depth as u64)
        + be_bytes(s.max_term_size as u64) + be_bytes(bit_of(s.schema)) + be_bytes(bit_of(s.goal_dist)) + be_bytes(
        s.goal_dist_w,
    )
}

/// The hash of what shapes the loading of the background.
pub open spec fn fingerprint(s: StrategyView) -> u64 {
    xxh64_digest(background_bytes(s), 0x57A7_E6F0)
}

/// Configurations that load the background alike share the fingerprint,
/// whatever else they differ in.
pub proof fn law_search_knobs_keep_the_fingerprint(a: StrategyView, b: StrategyView)
    requires
        a.tier_weight[0] == b.tier_weight[0],
        a.tier_weight[1] == b.tier_weight[1],
        a.tier_weight[2] == b.tier_weight[2],
        a.max_depth == b.max_depth,
        a.max_term_size == b.max_term_size,
        a.schema == b.schema,
        a.goal_dist == b.goal_dist,
        a.goal_dist_w == b.goal_dist_w,
    ensures
        fingerprint(a) == fingerprint(b),
{
}

proof fn lemma_word_in_bytes(a: u64, b: u64, x: Seq<u8>, k: int)
    requires
        x.subrange(k, k + 8) =~= be_bytes(a),
        x.subrange(k, k + 8) =~= be_bytes(b),
    ensures
        a == b,
{
    lemma_be_bytes_differ(a, b);
}

/// A sampled configuration is regenerated from its name: behind the mark the name
/// writes the seed in hexadecimal.
pub proof fn law_sample_name_reads_back(seed: u64)
    ensures
        sample_view(seed).name.len() > 4,
        sample_view(seed).name.take(4) == "rnd-"@,
        forall|i: int| 4 <= i < sample_view(seed).name.len() ==> is_hex(#[trigger] sample_view(seed).name[i]),
        written_value(sample_view(seed).name.skip(4), 16) == seed,
        sample_view(seed).bg_snapshot,
{
    reveal_strlit("rnd-");
    let d = digits(seed as nat, 16);
    let p = zero_padded(d, 8);
    law_digits_write_the_number(seed as nat, 16);
    law_padding_writes_the_same(d, 8, 16);
    let name = sample_view(seed).name;
    assert(name.take(4) =~= "rnd-"@);
    assert(name.skip(4) =~= p);
    assert forall|i: int| 4 <= i < name.len() implies is_hex(#[trigger] name[i]) by {
        assert(name[i] == p[i - 4]);
    }
}

/// Two seeds give two configurations, told apart by their names.
pub proof fn law_samples_differ(a: u64, b: u64)
    requires
        sample_view(a).name == sample_view(b).name,
    ensures
        a == b,
{
    law_sample_name_reads_back(a);
    law_sample_name_reads_back(b);
}


/// Configurations that load the background differently are hashed from
/// different bytes.
pub proof fn law_background_knobs_change_the_bytes(a: StrategyView, b: StrategyView)
    requires
        background_bytes(a) == background_bytes(b),
    ensures
        a.tier_weight[0] == b.tier_weight[0],
        a.tier_weight[1] == b.tier_weight[1],
        a.tier_weight[2] == b.tier_weight[2],
        a.max_depth == b.max_depth,
        a.max_term_size == b.max_term_size,
        a.schema == b.schema,
        a.goal_dist == b.goal_dist,
        a.goal_dist_w == b.goal_dist_w,
{
    let x = background_bytes(a);
    lemma_word_in_bytes(a.tier_weight[0], b.tier_weight[0], x, 0);
    lemma_word_in_bytes(a.tier_weight[1], b.tier_weight[1], x, 8);
    lemma_word_in_bytes(a.tier_weight[2], b.tier_weight[2], x, 16);
    lemma_word_in_bytes(a.max_depth as u64, b.max_depth as u64, x, 24);
    lemma_word_in_bytes(a.max_term_size as u64, b.max_term_size as u64, x, 32);
    lemma_word_in_bytes(bit_of(a.schema), bit_of(b.schema), x, 40);
    lemma_word_in_bytes(bit_of(a.goal_dist), bit_of(b.goal_dist), x, 48);
    lemma_word_in_bytes(a.goal_dist_w, b.goal_dist_w, x, 56);
}

/// The lanes of the default portfolio differ, each from each.
pub proof fn law_portfolio_lanes_differ(i: int, j: int)
    requires
        0 <= i < j < portfolio_views().len(),
    ensures
        portfolio_views()[i] != portfolio_views()[j],
{
    let s = portfolio_views();
    assert(s[2].tier_weight[2] == 4 && base_view().tier_weight[2] == 2);
    assert(s[0].goal_dist == false && s[1].goal_dist == true);
    assert(s[0].max_depth == 5 && s[3].max_depth == 7);
    assert(s[4].head_filter == true && s[0].head_filter == false);
    assert(s[5].schema == false && s[0].schema == true);
}

/// Every lane for a problem that stands alone keeps the complete calculus.
pub proof fn law_lanes_keep_the_calculus(sw: Switches, i: int)
    requires
        0 <= i < tptp_lane_views(sw).len(),
    ensures
        tptp_lane_views(sw)[i].full_saturation,
        tptp_lane_views(sw)[i].strict_saturation,
        tptp_lane_views(sw)[i].superposition,
        tptp_lane_views(sw)[i].eq_factoring,
        tptp_lane_views(sw)[i].subsumption,
        tptp_lane_views(sw)[i].derived_width_cap is None,
{
}

/// A switch that forces something off holds in every lane: no lane rewrites
/// backward, joins on equalities, keeps rows of subterms or builds derived
/// clauses late where that is switched off.
pub proof fn law_off_switches_hold_in_every_lane(sw: Switches, i: int)
    requires
        0 <= i < tptp_lane_views(sw).len(),
    ensures
        sw.no_bwd_demod ==> !tptp_lane_views(sw)[i].bwd_demod,
        sw.no_subs_join ==> !tptp_lane_views(sw)[i].subs_join,
        sw.no_subterm_rows ==> !tptp_lane_views(sw)[i].subterm_rows,
        sw.no_deferred_passive ==> !tptp_lane_views(sw)[i].deferred_passive,
{
}

/// The first lane is the plain configuration, and the first three do not
/// depend on whether one lane builds derived clauses late.
pub proof fn law_lane_prefix_is_stable(sw: Switches)
    ensures
        tptp_lane_views(sw).len() >= 5,
        tptp_lane_views(sw)[0] == tptp_view(sw),
        tptp_lane_views(sw)[1].name == "tptp-demod"@,
        tptp_lane_views(sw)[2].name == "tptp-goaldist"@,
{
}

/// No switch set.
pub open spec fn all_unset(sw: Switches) -> bool {
    !sw.no_schema && !sw.no_decode && !sw.goaldist && !sw.no_liu && !sw.headfilter && !sw.no_bg_snapshot && !sw.guide
        && !sw.no_modal_k && !sw.demod && !sw.no_bwd_demod && !sw.bwd_demod && !sw.no_subs_join && !sw.subs_join
        && !sw.no_subterm_rows && !sw.subterm_rows && !sw.no_deferred_passive && !sw.deferred_passive && sw.deferred_cap is None
}

/// Without a switch the configuration is the one to start from.
pub proof fn law_no_switch_changes_nothing(sw: Switches)
    requires
        all_unset(sw),
    ensures
        switched_view(sw) == base_view(),
{
}

#[verifier::rlimit(40)]
proof fn lemma_switches_of_search(sw: Switches, v: bool)
    ensures
        switched_view(Switches { no_schema: v, ..sw }) == (StrategyView { schema: !v, ..switched_view(sw) }),
        switched_view(Switches { no_decode: v, ..sw }) == (StrategyView { decode: !v, ..switched_view(sw) }),
        switched_view(Switches { goaldist: v, ..sw }) == (StrategyView { goal_dist: v, ..switched_view(sw) }),
        switched_view(Switches { headfilter: v, ..sw }) == (StrategyView { head_filter: v, ..switched_view(sw) }),
{
}

#[verifier::rlimit(40)]
proof fn lemma_switches_of_setup(sw: Switches, v: bool)
    ensures
        switched_view(Switches { no_bg_snapshot: v, ..sw }) == (StrategyView { bg_snapshot: !v, ..switched_view(sw) }),
        switched_view(Switches { guide: v, ..sw }) == (StrategyView { semantic_guide: v, ..switched_view(sw) }),
        switched_view(Switches { no_modal_k: v, ..sw }) == (StrategyView { modal_k: !v, ..switched_view(sw) }),
        switched_view(Switches { demod: v, ..sw }) == (StrategyView { demod: v, ..switched_view(sw) }),
        switched_view(Switches { no_liu: v, ..sw }) == (StrategyView {
            liu_rescue: !v,
            def_completion: !v,
            ..switched_view(sw)
        }),
{
}

#[verifier::rlimit(40)]
proof fn lemma_paired_switches(sw: Switches)
    ensures
        switched_view(Switches { no_bwd_demod: true, ..sw }) == (StrategyView { bwd_demod: false, ..switched_view(sw) }),
        !sw.no_bwd_demod ==> switched_view(Switches { bwd_demod: true, ..sw }) == (StrategyView { bwd_demod: true, ..switched_view(sw) }),
        switched_view(Switches { no_subs_join: true, ..sw }) == (StrategyView { subs_join: false, ..switched_view(sw) }),
        !sw.no_subs_join ==> switched_view(Switches { subs_join: true, ..sw }) == (StrategyView { subs_join: true, ..switched_view(sw) }),
{
}

#[verifier::rlimit(40)]
proof fn lemma_other_paired_switches(sw: Switches)
    ensures
        switched_view(Switches { no_subterm_rows: true, ..sw }) == (StrategyView { subterm_rows: false, ..switched_view(sw) }),
        !sw.no_subterm_rows ==> switched_view(Switches { subterm_rows: true, ..sw }) == (StrategyView { subterm_rows: true, ..switched_view(sw) }),
        switched_view(Switches { no_deferred_passive: true, ..sw }) == (StrategyView { deferred_passive: false, ..switched_view(sw) }),
        !sw.no_deferred_passive ==> switched_view(Switches { deferred_passive: true, ..sw }) == (StrategyView { deferred_passive: true, ..switched_view(sw) }),
{
}

/// Each switch changes its own knob and no other; the one for the rescue of a stalled
/// search also that for completed definitions.
pub proof fn law_a_switch_turns_its_own_knob(sw: Switches, v: bool)
    ensures
        switched_view(Switches { no_schema: v, ..sw }) == (StrategyView { schema: !v, ..switched_view(sw) }),
        switched_view(Switches { no_decode: v, ..sw }) == (StrategyView { decode: !v, ..switched_view(sw) }),
        switched_view(Switches { goaldist: v, ..sw }) == (StrategyView { goal_dist: v, ..switched_view(sw) }),
        switched_view(Switches { headfilter: v, ..sw }) == (StrategyView { head_filter: v, ..switched_view(sw) }),
        switched_view(Switches { no_bg_snapshot: v, ..sw }) == (StrategyView { bg_snapshot: !v, ..switched_view(sw) }),
        switched_view(Switches { guide: v, ..sw }) == (StrategyView { semantic_guide: v, ..switched_view(sw) }),
        switched_view(Switches { no_modal_k: v, ..sw }) == (StrategyView { modal_k: !v, ..switched_view(sw) }),
        switched_view(Switches { demod: v, ..sw }) == (StrategyView { demod: v, ..switched_view(sw) }),
        switched_view(Switches { no_liu: v, ..sw }) == (StrategyView {
            liu_rescue: !v,
            def_completion: !v,
            ..switched_view(sw)
        }),
{
    lemma_switches_of_search(sw, v);
    lemma_switches_of_setup(sw, v);
}

/// Where one switch turns a knob off and another turns it on, off wins.
pub proof fn law_off_wins(sw: Switches)
    ensures
        switched_view(Switches { no_bwd_demod: true, ..sw }) == (StrategyView { bwd_demod: false, ..switched_view(sw) }),
        !sw.no_bwd_demod ==> switched_view(Switches { bwd_demod: true, ..sw }) == (StrategyView { bwd_demod: true, ..switched_view(sw) }),
        switched_view(Switches { no_subs_join: true, ..sw }) == (StrategyView { subs_join: false, ..switched_view(sw) }),
        !sw.no_subs_join ==> switched_view(Switches { subs_join: true, ..sw }) == (StrategyView { subs_join: true, ..switched_view(sw) }),
        switched_view(Switches { no_subterm_rows: true, ..sw }) == (StrategyView { subterm_rows: false, ..switched_view(sw) }),
        !sw.no_subterm_rows ==> switched_view(Switches { subterm_rows: true, ..sw }) == (StrategyView { subterm_rows: true, ..switched_view(sw) }),
        switched_view(Switches { no_deferred_passive: true, ..sw }) == (StrategyView { deferred_passive: false, ..switched_view(sw) }),
        !sw.no_deferred_passive ==> switched_view(Switches { deferred_passive: true, ..sw }) == (StrategyView { deferred_passive: true, ..switched_view(sw) }),
{
    lemma_paired_switches(sw);
    lemma_other_paired_switches(sw);
}

/// A number given as text is taken over; any other text, like none, leaves the number that
/// was there.
pub proof fn law_a_written_cap_is_taken(sw: Switches, n: u32)
    ensures
        sw.deferred_cap matches Some(s) ==> s@ == digits(n as nat, 10) ==> switched_view(sw).deferred_cap == n,
        sw.deferred_cap matches Some(s) ==> parsed(s@, u32::MAX as nat) is None ==> switched_view(sw).deferred_cap
            == base_view().deferred_cap,
        sw.deferred_cap is None ==> switched_view(sw).deferred_cap == base_view().deferred_cap,
{
    law_numbers_are_read_back(n as nat, u32::MAX as nat, Seq::empty(), 0);
}

/// Whatever the seed, the knobs that are not drawn are as in the configuration to start
/// from, but that a sample rewrites no old clauses.
pub proof fn law_samples_leave_the_rest(seed: u64)
    ensures
        ({
            let s = sample_view(seed);
            let b = base_view();
            &&& s.derived_width_cap == b.derived_width_cap
            &&& s.bwd_demod_cap == b.bwd_demod_cap
            &&& s.recognize_roles == b.recognize_roles
            &&& s.modal_k == b.modal_k
            &&& s.full_saturation == b.full_saturation
            &&& s.strict_saturation == b.strict_saturation
            &&& s.subs_join == b.subs_join
            &&& s.subterm_rows == b.subterm_rows
            &&& s.bg_snapshot == b.bg_snapshot
            &&& s.deferred_passive == b.deferred_passive
            &&& s.deferred_cap == b.deferred_cap
            &&& !s.bwd_demod
        }),
{
}

/// A seed one step on draws the same numbers one place earlier.
pub proof fn law_draws_follow_one_stream(seed: u64, k: nat)
    ensures
        drawn(seed.wrapping_add(GAMMA), k) == drawn(seed, k + 1),
{
    lemma_stream_shifts(seed, k + 1);
}

proof fn lemma_stream_shifts(seed: u64, n: nat)
    ensures
        stream_state(seed.wrapping_add(GAMMA), n) == stream_state(seed, n + 1),
    decreases n,
{
    if n > 0 {
        lemma_stream_shifts(seed, (n - 1) as nat);
    } else {
        assert(stream_state(seed, 1) == stream_state(seed, 0).wrapping_add(GAMMA));
    }
}

} // verus!
