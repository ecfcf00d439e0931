//! The pilot: a feed-forward network with one hidden layer, whose weights
//! are what evolves.
//!
//! The weights lie in one vector, neuron after neuron: the weights of a
//! neuron's inputs in their order, then its bias. The hidden neurons come
//! first, the output neurons after them.

use vstd::prelude::*;
use crate::activation::{lemma_sigmoid_bounds, lemma_tanh_bounds, sigmoid, sigmoid_of, tanh, tanh_of};
use crate::chance::{below, between};
use crate::fixed::{ONE, clamped, lemma_product_bound, lemma_quot_bound, quot};
use rand::rngs::StdRng;

verus! {

pub const INPUT_SIZE: usize = 14;

pub const HIDDEN_SIZE: usize = 20;

pub const OUTPUT_SIZE: usize = 4;

/// The number of weights: fifteen for each hidden neuron and twenty-one for
/// each output neuron.
pub const GENOME_SIZE: usize = 384;

/// The number of weights of the hidden layer.
pub const HIDDEN_WEIGHTS: usize = 300;

/// No weight is larger in magnitude than this.
pub const WEIGHT_LIMIT: i64 = 3 * ONE;

/// No signal that enters the network may be larger in magnitude than this.
pub const SIGNAL_LIMIT: i64 = 1000 * ONE;

#[derive(Clone, Debug)]
pub struct Genome {
    pub weights: Vec<i64>,
    pub fitness: i64,
}

/// Whether `weights` can be the weights of a genome: there are as many as
/// the network has, and none exceeds the limit.
pub open spec fn weights_wf(weights: Seq<i64>) -> bool {
    &&& weights.len() == GENOME_SIZE
    &&& forall|i: int| 0 <= i < weights.len() ==> -WEIGHT_LIMIT <= #[trigger] weights[i] <= WEIGHT_LIMIT
}

/// Whether every weight lies between minus one and one, as those of a
/// genome made at random do.
pub open spec fn small_weights(weights: Seq<i64>) -> bool {
    forall|i: int| 0 <= i < weights.len() ==> -ONE <= #[trigger] weights[i] < ONE
}

/// Whether no signal exceeds the limit.
pub open spec fn signals_wf(signals: Seq<i64>) -> bool {
    forall|i: int| 0 <= i < signals.len() ==> -SIGNAL_LIMIT <= #[trigger] signals[i] <= SIGNAL_LIMIT
}

/// The sum of the first `n` signals, each times its weight; the weights are
/// those from index `base` on. Both factors are fixed-point numbers, so the
/// sum counts in squares of the unit.
pub open spec fn dot(weights: Seq<i64>, base: int, signals: Seq<i64>, n: int) -> int
    decreases n,
{
    if n <= 0 {
        0
    } else {
        dot(weights, base, signals, n - 1) + weights[base + n - 1] * signals[n - 1]
    }
}

/// What a neuron feeds to its squashing function: the weighted sum of all
/// its signals plus its bias, the weight that follows those of the signals.
pub open spec fn excitation(weights: Seq<i64>, base: int, signals: Seq<i64>) -> int {
    quot(dot(weights, base, signals, signals.len() as int), ONE as int) + weights[base
        + signals.len()]
}

/// Where the weights of hidden neuron `h` begin: each has one weight for
/// every input and a bias.
pub open spec fn hidden_base(h: int) -> int {
    15 * h
}

/// Where the weights of output neuron `o` begin: behind those of the hidden
/// layer, each with one weight for every hidden neuron and a bias.
pub open spec fn output_base(o: int) -> int {
    HIDDEN_WEIGHTS + 21 * o
}

/// What the hidden neurons put out for the given inputs.
pub open spec fn hidden_layer(weights: Seq<i64>, inputs: Seq<i64>) -> Seq<i64> {
    Seq::new(HIDDEN_SIZE as nat, |h: int| tanh_of(excitation(weights, hidden_base(h), inputs)) as i64)
}

/// What the output neurons put out for the given outputs of the hidden
/// layer.
pub open spec fn output_layer(weights: Seq<i64>, hidden: Seq<i64>) -> Seq<i64> {
    Seq::new(
        OUTPUT_SIZE as nat,
        |o: int| sigmoid_of(excitation(weights, output_base(o), hidden)) as i64,
    )
}

/// What the network puts out for the given inputs.
#[verifier::opaque]
pub open spec fn forward(weights: Seq<i64>, inputs: Seq<i64>) -> Seq<i64> {
    output_layer(weights, hidden_layer(weights, inputs))
}

impl Genome {
    /// The genome has as many weights as the network, none beyond the limit.
    pub open spec fn wf(&self) -> bool {
        weights_wf(self.weights@)
    }
}

/// A weighted sum of `n` signals is at most `n` times the product of the
/// two limits.
pub proof fn lemma_dot_bound(weights: Seq<i64>, base: int, signals: Seq<i64>, n: int)
    requires
        weights_wf(weights),
        signals_wf(signals),
        0 <= n <= signals.len(),
        0 <= base,
        base + n <= weights.len(),
    ensures
        -n * (WEIGHT_LIMIT * SIGNAL_LIMIT) <= dot(weights, base, signals, n) <= n * (WEIGHT_LIMIT
            * SIGNAL_LIMIT),
    decreases n,
{
    if n > 0 {
        lemma_dot_bound(weights, base, signals, n - 1);
        lemma_product_bound(
            weights[base + n - 1] as int,
            signals[n - 1] as int,
            WEIGHT_LIMIT as int,
            SIGNAL_LIMIT as int,
        );
        assert(n * (WEIGHT_LIMIT * SIGNAL_LIMIT) == (n - 1) * (WEIGHT_LIMIT * SIGNAL_LIMIT)
            + WEIGHT_LIMIT * SIGNAL_LIMIT) by (nonlinear_arith);
    }
}

/// Every output of the hidden layer lies between minus one and one, and
/// every output of the network between zero and one.
pub proof fn lemma_forward_bounds(weights: Seq<i64>, inputs: Seq<i64>)
    ensures
        hidden_layer(weights, inputs).len() == HIDDEN_SIZE,
        forall|h: int|
            0 <= h < HIDDEN_SIZE ==> -ONE <= #[trigger] hidden_layer(weights, inputs)[h] <= ONE,
        signals_wf(hidden_layer(weights, inputs)),
        forward(weights, inputs).len() == OUTPUT_SIZE,
        forall|o: int| 0 <= o < OUTPUT_SIZE ==> 0 <= #[trigger] forward(weights, inputs)[o] <= ONE,
{
    reveal(forward);
    assert forall|h: int| 0 <= h < HIDDEN_SIZE implies -ONE <= #[trigger] hidden_layer(
        weights,
        inputs,
    )[h] <= ONE by {
        lemma_tanh_bounds(excitation(weights, hidden_base(h), inputs));
    }
    let hidden = hidden_layer(weights, inputs);
    assert forall|o: int| 0 <= o < OUTPUT_SIZE implies 0 <= #[trigger] forward(weights, inputs)[o]
        <= ONE by {
        lemma_sigmoid_bounds(excitation(weights, output_base(o), hidden));
    }
}

/// Computes what a neuron feeds to its squashing function.
fn excite(weights: &Vec<i64>, base: usize, signals: &[i64]) -> (z: i64)
    requires
        weights_wf(weights@),
        signals_wf(signals@),
        signals@.len() <= HIDDEN_SIZE,
        base + signals@.len() < weights@.len(),
    ensures
        z == excitation(weights@, base as int, signals@),
{
    let mut sum: i64 = 0;
    let mut i: usize = 0;
    let ghost cap: int = WEIGHT_LIMIT * SIGNAL_LIMIT;
    assert(cap == 4_320_000_000_000_000) by (nonlinear_arith)
        requires
            cap == WEIGHT_LIMIT * SIGNAL_LIMIT,
    ;
    while i < signals.len()
        invariant
            i <= signals@.len(),
            signals@.len() <= HIDDEN_SIZE,
            base + signals@.len() < weights@.len(),
            weights_wf(weights@),
            signals_wf(signals@),
            cap == WEIGHT_LIMIT * SIGNAL_LIMIT,
            cap == 4_320_000_000_000_000,
            sum == dot(weights@, base as int, signals@, i as int),
        decreases signals@.len() - i,
    {
        proof {
            lemma_dot_bound(weights@, base as int, signals@, i as int);
            lemma_dot_bound(weights@, base as int, signals@, i + 1);
            lemma_product_bound(
                weights@[base + i] as int,
                signals@[i as int] as int,
                WEIGHT_LIMIT as int,
                SIGNAL_LIMIT as int,
            );
            assert(-20 * cap <= i * cap <= 20 * cap) by (nonlinear_arith)
                requires
                    0 <= i <= 20,
                    cap >= 0,
            ;
            assert(-21 * cap <= (i + 1) * cap <= 21 * cap) by (nonlinear_arith)
                requires
                    0 <= i <= 20,
                    cap >= 0,
            ;
        }
        sum = sum + weights[base + i] * signals[i];
        i = i + 1;
    }
    proof {
        lemma_dot_bound(weights@, base as int, signals@, i as int);
        assert(-20 * cap <= i * cap <= 20 * cap) by (nonlinear_arith)
            requires
                0 <= i <= 20,
                cap >= 0,
        ;
        lemma_quot_bound(sum as int, ONE as int, 20 * cap);
    }
    sum / ONE + weights[base + signals.len()]
}

impl Genome {
    /// Runs the network on the given inputs. The four outputs are the
    /// signals for thrust, turn left, turn right and fire.
    pub fn evaluate(&self, inputs: &[i64; 14]) -> (out: [i64; 4])
        requires
            self.wf(),
            signals_wf(inputs@),
        ensures
            out@ == forward(self.weights@, inputs@),
            forall|o: int| 0 <= o < OUTPUT_SIZE ==> 0 <= #[trigger] out[o] <= ONE,
    {
        proof {
            reveal(forward);
            lemma_forward_bounds(self.weights@, inputs@);
        }
        let mut idx: usize = 0;
        let mut hidden: [i64; 20] = [0i64; 20];
        let mut h: usize = 0;
        while h < HIDDEN_SIZE
            invariant
                h <= HIDDEN_SIZE,
                idx == hidden_base(h as int),
                self.wf(),
                signals_wf(inputs@),
                forall|j: int|
                    0 <= j < h ==> #[trigger] hidden@[j] == hidden_layer(self.weights@, inputs@)[j],
            decreases HIDDEN_SIZE - h,
        {
            proof {
                lemma_tanh_bounds(excitation(self.weights@, hidden_base(h as int), inputs@));
            }
            let z: i64 = excite(&self.weights, idx, inputs.as_slice());
            hidden[h] = tanh(z);
            idx = idx + INPUT_SIZE + 1;
            h = h + 1;
        }
        assert(hidden@ =~= hidden_layer(self.weights@, inputs@));
        let mut out: [i64; 4] = [0i64; 4];
        let mut o: usize = 0;
        while o < OUTPUT_SIZE
            invariant
                o <= OUTPUT_SIZE,
                idx == output_base(o as int),
                self.wf(),
                hidden@ == hidden_layer(self.weights@, inputs@),
                signals_wf(hidden@),
                forall|j: int|
                    0 <= j < o ==> #[trigger] out@[j] == forward(self.weights@, inputs@)[j],
            decreases OUTPUT_SIZE - o,
        {
            proof {
                reveal(forward);
                lemma_sigmoid_bounds(excitation(self.weights@, output_base(o as int), hidden@));
            }
            let z: i64 = excite(&self.weights, idx, hidden.as_slice());
            out[o] = sigmoid(z);
            idx = idx + HIDDEN_SIZE + 1;
            o = o + 1;
        }
        assert(out@ =~= forward(self.weights@, inputs@));
        out
    }
}

/// The weights of a child of `a` and `b`: those of `a` before the cut at
/// `point`, those of `b` from there on.
pub open spec fn spliced(a: Seq<i64>, b: Seq<i64>, point: int) -> Seq<i64> {
    Seq::new(a.len(), |i: int| if i < point { a[i] } else { b[i] })
}

/// The weight `w` after its chance to mutate: where the roll falls below
/// the rate, `delta` is added and the sum is held within the weight limit;
/// elsewhere the weight stays as it is.
pub open spec fn mutated(w: int, roll: int, rate: int, delta: int) -> int {
    if roll < rate {
        clamped(w + delta, -WEIGHT_LIMIT, WEIGHT_LIMIT as int)
    } else {
        w
    }
}

/// Whether the weight `after` can have come of the weight `before` by its
/// chance to mutate: for some roll below one and some `delta` of at most
/// `strength`.
pub open spec fn mutation_of(before: int, after: int, rate: int, strength: int) -> bool {
    exists|roll: int, delta: int|
        0 <= roll < ONE && -strength <= delta <= strength && after == #[trigger] mutated(
            before,
            roll,
            rate,
            delta,
        )
}

/// Whether the weight `after` is the weight `before` plus some `delta` of
/// at most `strength`, held within the weight limit.
pub open spec fn shift_of(before: int, after: int, strength: int) -> bool {
    exists|delta: int|
        -strength <= delta <= strength && after == #[trigger] clamped(
            before + delta,
            -WEIGHT_LIMIT,
            WEIGHT_LIMIT as int,
        )
}

/// A child has as many weights as its parents, each of them from the
/// parent on whose side of the cut it lies.
pub proof fn lemma_spliced(a: Seq<i64>, b: Seq<i64>, point: int)
    requires
        a.len() == b.len(),
    ensures
        spliced(a, b, point).len() == a.len(),
        forall|i: int|
            0 <= i < a.len() ==> (#[trigger] spliced(a, b, point)[i] == a[i] || spliced(
                a,
                b,
                point,
            )[i] == b[i]),
        forall|i: int| 0 <= i < a.len() && i < point ==> #[trigger] spliced(a, b, point)[i] == a[i],
        forall|i: int| 0 <= i < a.len() && i >= point ==> #[trigger] spliced(a, b, point)[i] == b[i],
        weights_wf(a) && weights_wf(b) ==> weights_wf(spliced(a, b, point)),
{
}

/// At rate zero no roll mutates a weight; at rate one every roll does.
pub proof fn lemma_mutated_extremes(w: int, roll: int, delta: int)
    requires
        0 <= roll < ONE,
    ensures
        mutated(w, roll, 0, delta) == w,
        mutated(w, roll, ONE as int, delta) == clamped(w + delta, -WEIGHT_LIMIT, WEIGHT_LIMIT as int),
{
}

/// Gives the weight `w` its chance to mutate. The sum is taken in a wider
/// type, so no weight and no `delta` is too large for it.
pub fn mutate_weight(w: i64, roll: i64, rate: i64, delta: i64) -> (r: i64)
    ensures
        r == mutated(w as int, roll as int, rate as int, delta as int),
        roll < rate ==> -WEIGHT_LIMIT <= r <= WEIGHT_LIMIT,
        roll >= rate ==> r == w,
{
    if roll < rate {
        let sum: i128 = w as i128 + delta as i128;
        if sum < -(WEIGHT_LIMIT as i128) {
            -WEIGHT_LIMIT
        } else if sum > WEIGHT_LIMIT as i128 {
            WEIGHT_LIMIT
        } else {
            sum as i64
        }
    } else {
        w
    }
}

impl Genome {
    /// A genome with the same weights and the same fitness.
    pub fn duplicate(&self) -> (g: Genome)
        ensures
            g.weights@ == self.weights@,
            g.fitness == self.fitness,
    {
        let mut weights: Vec<i64> = Vec::with_capacity(self.weights.len());
        let mut i: usize = 0;
        while i < self.weights.len()
            invariant
                i <= self.weights@.len(),
                weights@ == self.weights@.take(i as int),
            decreases self.weights@.len() - i,
        {
            weights.push(self.weights[i]);
            proof {
                assert(weights@ =~= self.weights@.take(i + 1));
            }
            i = i + 1;
        }
        proof {
            assert(self.weights@.take(i as int) =~= self.weights@);
        }
        Genome { weights, fitness: self.fitness }
    }

    /// Makes a genome with every weight drawn between minus one and one.
    pub fn random(rng: &mut StdRng) -> (g: Genome)
        ensures
            g.wf(),
            g.fitness == 0,
            small_weights(g.weights@),
    {
        let mut weights: Vec<i64> = Vec::with_capacity(GENOME_SIZE);
        let mut i: usize = 0;
        while i < GENOME_SIZE
            invariant
                i <= GENOME_SIZE,
                weights@.len() == i,
                forall|j: int| 0 <= j < i ==> -ONE <= #[trigger] weights@[j] < ONE,
            decreases GENOME_SIZE - i,
        {
            let w: i64 = between(rng, -ONE, ONE - 1);
            weights.push(w);
            i = i + 1;
        }
        Genome { weights, fitness: 0 }
    }

    /// Makes the child of `a` and `b` that is cut at `point`.
    pub fn splice(a: &Genome, b: &Genome, point: usize) -> (child: Genome)
        requires
            a.weights@.len() == GENOME_SIZE,
            b.weights@.len() == GENOME_SIZE,
        ensures
            child.weights@ == spliced(a.weights@, b.weights@, point as int),
            child.fitness == 0,
            a.wf() && b.wf() ==> child.wf(),
    {
        let mut weights: Vec<i64> = Vec::with_capacity(GENOME_SIZE);
        let mut i: usize = 0;
        while i < GENOME_SIZE
            invariant
                i <= GENOME_SIZE,
                a.weights@.len() == GENOME_SIZE,
                b.weights@.len() == GENOME_SIZE,
                weights@ == spliced(a.weights@, b.weights@, point as int).take(i as int),
            decreases GENOME_SIZE - i,
        {
            weights.push(
                if i < point {
                    a.weights[i]
                } else {
                    b.weights[i]
                },
            );
            proof {
                assert(weights@ =~= spliced(a.weights@, b.weights@, point as int).take(i + 1));
            }
            i = i + 1;
        }
        proof {
            let whole = spliced(a.weights@, b.weights@, point as int);
            assert(whole.take(i as int) =~= whole);
            lemma_spliced(a.weights@, b.weights@, point as int);
        }
        Genome { weights, fitness: 0 }
    }

    /// Makes a child of `a` and `b`, cut at a random point. Its fitness is
    /// zero.
    pub fn crossover(a: &Genome, b: &Genome, rng: &mut StdRng) -> (child: Genome)
        requires
            a.weights@.len() == GENOME_SIZE,
            b.weights@.len() == GENOME_SIZE,
        ensures
            a.wf() && b.wf() ==> child.wf(),
            child.fitness == 0,
            exists|point: int|
                0 <= point < GENOME_SIZE && child.weights@ == #[trigger] spliced(
                    a.weights@,
                    b.weights@,
                    point,
                ),
    {
        let point: usize = below(rng, GENOME_SIZE);
        Genome::splice(a, b, point)
    }

    /// Gives every weight its chance to mutate: with the probability
    /// `rate`, a number drawn between `-strength` and `strength` is added
    /// to it, and the sum is held within the weight limit. Weights that do
    /// not mutate stay as they are, whatever they are.
    pub fn mutate(&mut self, rate: i64, strength: i64, rng: &mut StdRng)
        requires
            0 <= strength,
        ensures
            final(self).weights@.len() == old(self).weights@.len(),
            final(self).fitness == old(self).fitness,
            forall|i: int|
                0 <= i < old(self).weights@.len() ==> mutation_of(
                    old(self).weights@[i] as int,
                    #[trigger] final(self).weights@[i] as int,
                    rate as int,
                    strength as int,
                ),
            rate <= 0 ==> final(self).weights@ == old(self).weights@,
            rate >= ONE ==> forall|i: int|
                0 <= i < old(self).weights@.len() ==> shift_of(
                    old(self).weights@[i] as int,
                    #[trigger] final(self).weights@[i] as int,
                    strength as int,
                ),
            old(self).wf() ==> final(self).wf(),
            rate >= ONE && old(self).weights@.len() == GENOME_SIZE ==> final(self).wf(),
    {
        let ghost before = self.weights@;
        let mut i: usize = 0;
        while i < self.weights.len()
            invariant
                i <= before.len(),
                0 <= strength,
                self.weights@.len() == before.len(),
                self.fitness == old(self).fitness,
                forall|j: int| i <= j < before.len() ==> self.weights@[j] == before[j],
                forall|j: int|
                    0 <= j < i ==> mutation_of(
                        before[j] as int,
                        #[trigger] self.weights@[j] as int,
                        rate as int,
                        strength as int,
                    ),
                rate <= 0 ==> self.weights@ == before,
                rate >= ONE ==> forall|j: int|
                    0 <= j < i ==> shift_of(
                        before[j] as int,
                        #[trigger] self.weights@[j] as int,
                        strength as int,
                    ) && -WEIGHT_LIMIT <= self.weights@[j] <= WEIGHT_LIMIT,
                weights_wf(before) ==> weights_wf(self.weights@),
            decreases before.len() - i,
        {
            let ghost earlier = self.weights@;
            let w: i64 = self.weights[i];
            let roll: i64 = between(rng, 0, ONE - 1);
            if roll < rate {
                let delta: i64 = between(rng, -strength, strength);
                self.weights[i] = mutate_weight(w, roll, rate, delta);
                proof {
                    assert(self.weights@[i as int] == mutated(
                        before[i as int] as int,
                        roll as int,
                        rate as int,
                        delta as int,
                    ));
                    assert(self.weights@[i as int] == clamped(
                        before[i as int] + delta,
                        -WEIGHT_LIMIT,
                        WEIGHT_LIMIT as int,
                    ));
                }
            } else {
                proof {
                    assert(self.weights@[i as int] == mutated(
                        before[i as int] as int,
                        roll as int,
                        rate as int,
                        0,
                    ));
                }
            }
            proof {
                assert forall|j: int| 0 <= j < i implies self.weights@[j] == earlier[j] by {}
                if weights_wf(before) {
                    assert forall|j: int| 0 <= j < self.weights@.len() implies -WEIGHT_LIMIT
                        <= #[trigger] self.weights@[j] <= WEIGHT_LIMIT by {
                        if j != i {
                            assert(self.weights@[j] == earlier[j]);
                        }
                    }
                }
            }
            i = i + 1;
        }
    }
}

impl Genome {
    /// Tells whether the genome is well-formed, which is what the network
    /// and the breeding ask for and keep.
    pub fn is_valid(&self) -> (b: bool)
        ensures
            b == self.wf(),
    {
        if self.weights.len() != GENOME_SIZE {
            return false;
        }
        let mut i: usize = 0;
        while i < GENOME_SIZE
            invariant
                i <= GENOME_SIZE,
                self.weights@.len() == GENOME_SIZE,
                forall|j: int|
                    0 <= j < i ==> -WEIGHT_LIMIT <= #[trigger] self.weights@[j] <= WEIGHT_LIMIT,
            decreases GENOME_SIZE - i,
        {
            if self.weights[i] < -WEIGHT_LIMIT || self.weights[i] > WEIGHT_LIMIT {
                return false;
            }
            i = i + 1;
        }
        true
    }
}

/// The vector of weights holds exactly the weights of the network: for
/// each neuron one for every signal that enters it, and a bias.
pub proof fn lemma_genome_size()
    ensures
        GENOME_SIZE == (INPUT_SIZE + 1) * HIDDEN_SIZE + (HIDDEN_SIZE + 1) * OUTPUT_SIZE,
        HIDDEN_WEIGHTS == (INPUT_SIZE + 1) * HIDDEN_SIZE,
        hidden_base(HIDDEN_SIZE as int) == output_base(0),
        output_base(OUTPUT_SIZE as int) == GENOME_SIZE,
        forall|h: int| hidden_base(h + 1) - #[trigger] hidden_base(h) == INPUT_SIZE + 1,
        forall|o: int| output_base(o + 1) - #[trigger] output_base(o) == HIDDEN_SIZE + 1,
{
    assert((INPUT_SIZE + 1) * HIDDEN_SIZE == 300) by (nonlinear_arith)
        requires
            INPUT_SIZE == 14,
            HIDDEN_SIZE == 20,
    ;
    assert((HIDDEN_SIZE + 1) * OUTPUT_SIZE == 84) by (nonlinear_arith)
        requires
            HIDDEN_SIZE == 20,
            OUTPUT_SIZE == 4,
    ;
}

} // verus!
