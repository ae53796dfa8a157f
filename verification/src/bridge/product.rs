//! The prover's side of the product sumcheck: `sum_x sum_j A_j(x) * B_j(x) = claim`.

use vstd::arithmetic::power2::{lemma2_to64, lemma_pow2_pos, lemma_pow2_unfold, pow2};
use vstd::prelude::*;

use super::error::BatchedParityBridgeError;
use super::fp128::{
    congruent, lemma_congruent, lemma_congruent_to_residue, lemma_modulus, lemma_residue,
    lemma_residue_of_small, residue, residues, Fp128,
};
use super::interpolation::{
    cubic_at, cubic_plus, first_values, law_quadratic_interpolates, lemma_cubic_plus,
    lemma_quadratic_congruent, values_of,
};
use super::rounds::{claim_after, final_claim, rounds_of, through, ProductSumcheckProof};
use super::tables::{
    all_congruent, copy_table, fold_evals, lemma_dot_congruent, lemma_fold_congruent, lemma_reduced,
    lemma_sum_congruent, reduced, table_product,
};
use crate::field::Ring;
use crate::multilinear::{
    dot, eq_table, evaluation, folded_by, folded_low, interpolated, law_fold_all_evaluates, lemma_eq_table_len,
    lemma_sum_plus,
    lemma_sum_take, pointwise_plus, pointwise_times, sum,
};
use crate::powers::{is_power_of_two, is_two_power, lemma_exponents, log2_exact};

verus! {

/// The residues of tables.
pub open spec fn tables_of(tables: Seq<Vec<Fp128>>) -> Seq<Seq<int>> {
    Seq::new(tables.len(), |j: int| residues(tables[j]@))
}

/// The inner products of the tables with the same index.
pub open spec fn table_products(lefts: Seq<Seq<int>>, rights: Seq<Seq<int>>) -> Seq<int> {
    Seq::new(lefts.len(), |j: int| dot(lefts[j], rights[j]))
}

/// The sum that a product sumcheck is about.
pub open spec fn product_total(lefts: Seq<Seq<int>>, rights: Seq<Seq<int>>) -> int {
    sum(table_products(lefts, rights))
}

/// All tables with their lowest variables fixed to the coordinates of a point.
pub open spec fn all_folded_by(tables: Seq<Seq<int>>, point: Seq<int>) -> Seq<Seq<int>> {
    Seq::new(tables.len(), |j: int| folded_by(tables[j], point))
}

/// All tables with their lowest variable fixed.
pub open spec fn all_folded(tables: Seq<Seq<int>>, c: int) -> Seq<Seq<int>> {
    Seq::new(tables.len(), |j: int| folded_low(tables[j], c))
}

/// The value at `t` of the round polynomial: the sum that is left when the lowest variable is
/// fixed to `t`.
pub open spec fn product_round(lefts: Seq<Seq<int>>, rights: Seq<Seq<int>>, t: int) -> int {
    product_total(all_folded(lefts, t), all_folded(rights, t))
}

/// Whether the tables on both sides are as many, at least one, and all of the same length, a power
/// of two.
pub open spec fn valid_tables(lefts: Seq<Seq<int>>, rights: Seq<Seq<int>>) -> bool {
    &&& lefts.len() == rights.len()
    &&& lefts.len() > 0
    &&& is_power_of_two(lefts[0].len() as int)
    &&& all_of_length(lefts, lefts[0].len())
    &&& all_of_length(rights, lefts[0].len())
}

/// Whether all tables have a length.
pub open spec fn all_of_length(tables: Seq<Seq<int>>, n: nat) -> bool {
    forall|j: int| 0 <= j < tables.len() ==> (#[trigger] tables[j]).len() == n
}

/// Whether tables are congruent entry by entry.
pub open spec fn tables_congruent(a: Seq<Seq<int>>, b: Seq<Seq<int>>) -> bool {
    &&& a.len() == b.len()
    &&& forall|j: int| 0 <= j < a.len() ==> all_congruent(#[trigger] a[j], b[j])
}

/// Congruent tables have congruent sums.
proof fn lemma_total_congruent(
    a: Seq<Seq<int>>,
    b: Seq<Seq<int>>,
    c: Seq<Seq<int>>,
    d: Seq<Seq<int>>,
    n: nat,
)
    requires
        tables_congruent(a, c),
        tables_congruent(b, d),
        a.len() == b.len(),
        all_of_length(a, n),
        all_of_length(b, n),
    ensures
        congruent(product_total(a, b), product_total(c, d)),
{
    let (p, q) = (table_products(a, b), table_products(c, d));
    assert forall|j: int| 0 <= j < p.len() implies #[trigger] congruent(p[j], q[j]) by {
        assert(all_congruent(a[j], c[j]) && all_congruent(b[j], d[j]));
        lemma_dot_congruent(a[j], b[j], c[j], d[j]);
    }
    lemma_sum_congruent(p, q);
}

/// Congruent tables stay congruent when a variable is fixed.
proof fn lemma_folds_congruent(a: Seq<Seq<int>>, b: Seq<Seq<int>>, x: int)
    requires
        tables_congruent(a, b),
    ensures
        tables_congruent(all_folded(a, x), all_folded(b, x)),
{
    assert forall|j: int| 0 <= j < a.len() implies all_congruent(
        #[trigger] all_folded(a, x)[j],
        all_folded(b, x)[j],
    ) by {
        assert(all_congruent(a[j], b[j]));
        lemma_fold_congruent(a[j], b[j], x, x);
    }
}

/// Fixing one more variable.
proof fn lemma_fold_one_more(tables: Seq<Seq<int>>, point: Seq<int>, k: int)
    requires
        0 <= k < point.len(),
    ensures
        all_folded_by(tables, point.take(k + 1)) == all_folded(
            all_folded_by(tables, point.take(k)),
            point[k],
        ),
{
    assert(point.take(k + 1).drop_last() =~= point.take(k));
    assert(all_folded_by(tables, point.take(k + 1)) =~= all_folded(
        all_folded_by(tables, point.take(k)),
        point[k],
    ));
}

/// The lengths of tables after some variables have been fixed.
pub proof fn lemma_folded_lengths(tables: Seq<Seq<int>>, point: Seq<int>, n: nat)
    requires
        all_of_length(tables, pow2(n)),
        point.len() <= n,
    ensures
        all_of_length(all_folded_by(tables, point), pow2((n - point.len()) as nat)),
    decreases point.len(),
{
    if point.len() > 0 {
        lemma_folded_lengths(tables, point.drop_last(), n);
        lemma_pow2_unfold((n - point.len() + 1) as nat);
        assert forall|j: int| 0 <= j < tables.len() implies (#[trigger] all_folded_by(
            tables,
            point,
        )[j]).len() == pow2((n - point.len()) as nat) by {
            assert(all_folded_by(tables, point.drop_last())[j].len() == pow2(
                (n - point.len() + 1) as nat,
            ));
        }
    }
}

/// Returns the sum of the inner products of the tables with the same index.
fn product_sum(lefts: &[Vec<Fp128>], rights: &[Vec<Fp128>]) -> (r: Fp128)
    requires
        lefts@.len() == rights@.len(),
        forall|j: int|
            0 <= j < lefts@.len() ==> (#[trigger] lefts@[j])@.len() == rights@[j]@.len(),
    ensures
        r@ == residue(product_total(tables_of(lefts@), tables_of(rights@))),
{
    let mut acc: Fp128 = Fp128::from_u64(0);
    let ghost terms = table_products(tables_of(lefts@), tables_of(rights@));
    proof {
        lemma_modulus();
        lemma_residue_of_small(0);
    }
    let mut j: usize = 0;
    while j < lefts.len()
        invariant
            j <= lefts@.len(),
            lefts@.len() == rights@.len(),
            forall|j: int|
                0 <= j < lefts@.len() ==> (#[trigger] lefts@[j])@.len() == rights@[j]@.len(),
            terms == table_products(tables_of(lefts@), tables_of(rights@)),
            acc@ == residue(sum(terms.take(j as int))),
        decreases lefts@.len() - j,
    {
        assert(lefts@[j as int]@.len() == rights@[j as int]@.len());
        let term: Fp128 = table_product(lefts[j].as_slice(), rights[j].as_slice());
        proof {
            lemma_sum_take(terms, j as int);
            lemma_congruent_to_residue(terms[j as int]);
            lemma_congruent_to_residue(sum(terms.take(j as int)));
            lemma_congruent(acc@, term@, sum(terms.take(j as int)), terms[j as int]);
        }
        acc = acc.add(term);
        j = j + 1;
    }
    assert(terms.take(j as int) =~= terms);
    acc
}

/// Returns the table with its lowest variable fixed to a small integer.
fn folded_at(table: &[Fp128], t: u64) -> (r: Vec<Fp128>)
    ensures
        residues(r@) == reduced(folded_low(residues(table@), t as int)),
{
    let mut out: Vec<Fp128> = copy_table(table);
    fold_evals(&mut out, Fp128::from_u64(t));
    out
}

/// The inner product of two tables with their lowest variable fixed.
fn folded_product(left: &[Fp128], right: &[Fp128], t: u64) -> (r: Fp128)
    requires
        left@.len() == right@.len(),
    ensures
        r@ == residue(dot(folded_low(residues(left@), t as int), folded_low(residues(right@), t as int))),
{
    let l: Vec<Fp128> = folded_at(left, t);
    let r: Vec<Fp128> = folded_at(right, t);
    proof {
        let (x, y) = (folded_low(residues(left@), t as int), folded_low(residues(right@), t as int));
        assert(residues(l@).len() == reduced(x).len() && residues(r@).len() == reduced(y).len());
        lemma_reduced(x);
        lemma_reduced(y);
        lemma_dot_congruent(residues(l@), residues(r@), x, y);
    }
    table_product(l.as_slice(), r.as_slice())
}

/// Returns the values of the round polynomial at 0, 1 and 2.
pub fn product_round_evals(lefts: &[Vec<Fp128>], rights: &[Vec<Fp128>]) -> (r: [Fp128; 3])
    requires
        lefts@.len() == rights@.len(),
        forall|j: int|
            0 <= j < lefts@.len() ==> (#[trigger] lefts@[j])@.len() == rights@[j]@.len(),
    ensures
        forall|t: int|
            0 <= t < 3 ==> (#[trigger] r[t])@ == residue(
                product_round(tables_of(lefts@), tables_of(rights@), t),
            ),
{
    let e0: Fp128 = product_round_at(lefts, rights, 0);
    let e1: Fp128 = product_round_at(lefts, rights, 1);
    let e2: Fp128 = product_round_at(lefts, rights, 2);
    let r: [Fp128; 3] = [e0, e1, e2];
    assert(r[0] == e0 && r[1] == e1 && r[2] == e2);
    r
}

/// Returns the value of the round polynomial at a small integer.
fn product_round_at(lefts: &[Vec<Fp128>], rights: &[Vec<Fp128>], t: u64) -> (r: Fp128)
    requires
        lefts@.len() == rights@.len(),
        forall|j: int|
            0 <= j < lefts@.len() ==> (#[trigger] lefts@[j])@.len() == rights@[j]@.len(),
    ensures
        r@ == residue(product_round(tables_of(lefts@), tables_of(rights@), t as int)),
{
    let mut acc: Fp128 = Fp128::from_u64(0);
    let ghost (ls, rs) = (
        all_folded(tables_of(lefts@), t as int),
        all_folded(tables_of(rights@), t as int),
    );
    let ghost terms = table_products(ls, rs);
    proof {
        lemma_modulus();
        lemma_residue_of_small(0);
    }
    let mut j: usize = 0;
    while j < lefts.len()
        invariant
            j <= lefts@.len(),
            lefts@.len() == rights@.len(),
            forall|j: int|
                0 <= j < lefts@.len() ==> (#[trigger] lefts@[j])@.len() == rights@[j]@.len(),
            ls == all_folded(tables_of(lefts@), t as int),
            rs == all_folded(tables_of(rights@), t as int),
            terms == table_products(ls, rs),
            acc@ == residue(sum(terms.take(j as int))),
        decreases lefts@.len() - j,
    {
        assert(lefts@[j as int]@.len() == rights@[j as int]@.len());
        let term: Fp128 = folded_product(lefts[j].as_slice(), rights[j].as_slice(), t);
        proof {
            lemma_sum_take(terms, j as int);
            lemma_congruent_to_residue(terms[j as int]);
            lemma_congruent_to_residue(sum(terms.take(j as int)));
            lemma_congruent(acc@, term@, sum(terms.take(j as int)), terms[j as int]);
        }
        acc = acc.add(term);
        j = j + 1;
    }
    assert(terms.take(j as int) =~= terms);
    acc
}

/// Checks that the tables on both sides fit together.
fn validate_product_inputs(lefts: &[Vec<Fp128>], rights: &[Vec<Fp128>]) -> (r: Result<
    (),
    BatchedParityBridgeError,
>)
    ensures
        match r {
            Ok(_) => valid_tables(tables_of(lefts@), tables_of(rights@)),
            Err(e) => e == BatchedParityBridgeError::InvalidSumcheck && !valid_tables(
                tables_of(lefts@),
                tables_of(rights@),
            ),
        },
{
    let ghost (ls, rs) = (tables_of(lefts@), tables_of(rights@));
    if lefts.len() != rights.len() || lefts.len() == 0 {
        return Err(BatchedParityBridgeError::InvalidSumcheck);
    }
    let len: usize = lefts[0].len();
    assert(ls[0].len() == len);
    if !is_two_power(len) {
        return Err(BatchedParityBridgeError::InvalidSumcheck);
    }
    let mut j: usize = 0;
    while j < lefts.len()
        invariant
            j <= lefts@.len(),
            lefts@.len() == rights@.len(),
            ls == tables_of(lefts@),
            rs == tables_of(rights@),
            ls.len() > 0,
            ls[0].len() == len,
            forall|i: int| 0 <= i < j ==> (#[trigger] ls[i]).len() == len,
            forall|i: int| 0 <= i < j ==> (#[trigger] rs[i]).len() == len,
        decreases lefts@.len() - j,
    {
        assert(ls[j as int].len() == lefts@[j as int]@.len());
        assert(rs[j as int].len() == rights@[j as int]@.len());
        if lefts[j].len() != len || rights[j].len() != len {
            return Err(BatchedParityBridgeError::InvalidSumcheck);
        }
        j = j + 1;
    }
    Ok(())
}

/// Returns a copy of tables.
fn copy_tables(tables: &[Vec<Fp128>]) -> (r: Vec<Vec<Fp128>>)
    ensures
        tables_of(r@) == tables_of(tables@),
{
    let mut out: Vec<Vec<Fp128>> = Vec::with_capacity(tables.len());
    let mut j: usize = 0;
    while j < tables.len()
        invariant
            j <= tables@.len(),
            out@.len() == j,
            forall|i: int| 0 <= i < j ==> (#[trigger] out@[i])@ == tables@[i]@,
        decreases tables@.len() - j,
    {
        out.push(copy_table(tables[j].as_slice()));
        j = j + 1;
    }
    assert(tables_of(out@) =~= tables_of(tables@)) by {
        assert forall|i: int| 0 <= i < tables@.len() implies tables_of(out@)[i] == tables_of(
            tables@,
        )[i] by {
            assert(out@[i]@ == tables@[i]@);
        }
    }
    out
}

/// Fixes the lowest variable of all tables.
fn fold_tables(tables: &mut Vec<Vec<Fp128>>, challenge: Fp128)
    ensures
        final(tables)@.len() == old(tables)@.len(),
        forall|j: int|
            0 <= j < final(tables)@.len() ==> residues((#[trigger] final(tables)@[j])@) == reduced(
                folded_low(residues(old(tables)@[j]@), challenge@),
            ),
{
    let mut out: Vec<Vec<Fp128>> = Vec::with_capacity(tables.len());
    let mut j: usize = 0;
    while j < tables.len()
        invariant
            j <= tables@.len(),
            tables@ == old(tables)@,
            out@.len() == j,
            forall|i: int|
                0 <= i < j ==> residues((#[trigger] out@[i])@) == reduced(
                    folded_low(residues(tables@[i]@), challenge@),
                ),
        decreases tables@.len() - j,
    {
        let mut table: Vec<Fp128> = copy_table(tables[j].as_slice());
        fold_evals(&mut table, challenge);
        out.push(table);
        j = j + 1;
    }
    *tables = out;
}

/// All tables, reduced.
pub open spec fn all_reduced(tables: Seq<Seq<int>>) -> Seq<Seq<int>> {
    Seq::new(tables.len(), |j: int| reduced(tables[j]))
}

/// The state of the prover between two rounds of a product sumcheck.
#[derive(Debug, Clone, PartialEq, Eq)]
pub struct ProductSumcheckProver {
    /// The tables on the left, with the variables of the past rounds fixed.
    pub lefts: Vec<Vec<Fp128>>,
    /// The tables on the right, with the variables of the past rounds fixed.
    pub rights: Vec<Vec<Fp128>>,
}

impl ProductSumcheckProver {
    /// Whether the tables on both sides fit together.
    pub open spec fn is_valid(&self) -> bool {
        valid_tables(tables_of(self.lefts@), tables_of(self.rights@))
    }

    /// The number of entries of each table.
    pub open spec fn size(&self) -> nat {
        self.lefts@[0]@.len()
    }

    /// Starts a product sumcheck, if the tables on both sides fit together.
    pub fn new(lefts: &[Vec<Fp128>], rights: &[Vec<Fp128>]) -> (r: Result<
        Self,
        BatchedParityBridgeError,
    >)
        ensures
            match r {
                Ok(p) => p.is_valid() && tables_of(p.lefts@) == tables_of(lefts@) && tables_of(
                    p.rights@,
                ) == tables_of(rights@),
                Err(e) => e == BatchedParityBridgeError::InvalidSumcheck && !valid_tables(
                    tables_of(lefts@),
                    tables_of(rights@),
                ),
            },
    {
        match validate_product_inputs(lefts, rights) {
            Ok(_) => Ok(
                ProductSumcheckProver { lefts: copy_tables(lefts), rights: copy_tables(rights) },
            ),
            Err(e) => Err(e),
        }
    }

    /// The tables of a valid state have the same length.
    proof fn lemma_lengths(&self)
        requires
            self.is_valid(),
        ensures
            self.lefts@.len() == self.rights@.len(),
            self.lefts@.len() > 0,
            is_power_of_two(self.size() as int),
            forall|j: int|
                0 <= j < self.lefts@.len() ==> (#[trigger] self.lefts@[j])@.len()
                    == self.rights@[j]@.len(),
            forall|j: int|
                0 <= j < self.lefts@.len() ==> (#[trigger] self.lefts@[j])@.len() == self.size(),
            forall|j: int|
                0 <= j < self.rights@.len() ==> (#[trigger] self.rights@[j])@.len() == self.size(),
    {
        let (ls, rs) = (tables_of(self.lefts@), tables_of(self.rights@));
        assert forall|j: int| 0 <= j < self.lefts@.len() implies (#[trigger] self.lefts@[j])@.len()
            == self.size() by {
            assert(ls[j].len() == ls[0].len());
        }
        assert forall|j: int| 0 <= j < self.rights@.len() implies (#[trigger] self.rights@[j])@.len()
            == self.size() by {
            assert(rs[j].len() == ls[0].len());
        }
    }

    /// Returns the number of rounds that are left.
    pub fn num_rounds(&self) -> (r: usize)
        requires
            self.is_valid(),
        ensures
            self.size() == pow2(r as nat),
    {
        proof {
            self.lemma_lengths();
        }
        log2_exact(self.lefts[0].len())
    }

    /// Returns the sum that is claimed at this state.
    pub fn claim(&self) -> (r: Fp128)
        requires
            self.is_valid(),
        ensures
            r@ == residue(product_total(tables_of(self.lefts@), tables_of(self.rights@))),
    {
        proof {
            self.lemma_lengths();
        }
        product_sum(self.lefts.as_slice(), self.rights.as_slice())
    }

    /// Returns the values of the next round polynomial at 0, 1 and 2.
    pub fn round_evals(&self) -> (r: [Fp128; 3])
        requires
            self.is_valid(),
        ensures
            forall|t: int|
                0 <= t < 3 ==> (#[trigger] r[t])@ == residue(
                    product_round(tables_of(self.lefts@), tables_of(self.rights@), t),
                ),
    {
        proof {
            self.lemma_lengths();
        }
        product_round_evals(self.lefts.as_slice(), self.rights.as_slice())
    }

    /// Fixes the variable of the round to the challenge.
    pub fn fold(&mut self, challenge: Fp128)
        requires
            old(self).is_valid(),
            old(self).size() >= 2,
        ensures
            final(self).is_valid(),
            2 * final(self).size() == old(self).size(),
            tables_of(final(self).lefts@) == all_reduced(
                all_folded(tables_of(old(self).lefts@), challenge@),
            ),
            tables_of(final(self).rights@) == all_reduced(
                all_folded(tables_of(old(self).rights@), challenge@),
            ),
    {
        proof {
            self.lemma_lengths();
        }
        let ghost before = *self;
        fold_tables(&mut self.lefts, challenge);
        fold_tables(&mut self.rights, challenge);
        proof {
            let (ls, rs) = (tables_of(self.lefts@), tables_of(self.rights@));
            assert(ls =~= all_reduced(all_folded(tables_of(before.lefts@), challenge@))) by {
                assert forall|j: int| 0 <= j < ls.len() implies ls[j] == all_reduced(
                    all_folded(tables_of(before.lefts@), challenge@),
                )[j] by {
                    assert(residues(self.lefts@[j]@) == reduced(
                        folded_low(residues(before.lefts@[j]@), challenge@),
                    ));
                }
            }
            assert(rs =~= all_reduced(all_folded(tables_of(before.rights@), challenge@))) by {
                assert forall|j: int| 0 <= j < rs.len() implies rs[j] == all_reduced(
                    all_folded(tables_of(before.rights@), challenge@),
                )[j] by {
                    assert(residues(self.rights@[j]@) == reduced(
                        folded_low(residues(before.rights@[j]@), challenge@),
                    ));
                }
            }
            let n = choose|n: nat| before.size() == pow2(n);
            lemma2_to64();
            lemma_pow2_unfold(n);
            assert(before.size() == 2 * pow2((n - 1) as nat));
            assert(before.lefts@[0]@.len() == before.size());
            assert(ls[0].len() == pow2((n - 1) as nat));
            assert forall|j: int| 0 <= j < ls.len() implies (#[trigger] ls[j]).len()
                == ls[0].len() by {
                assert(before.lefts@[j]@.len() == before.size());
            }
            assert forall|j: int| 0 <= j < rs.len() implies (#[trigger] rs[j]).len()
                == ls[0].len() by {
                assert(before.rights@[j]@.len() == before.size());
            }
        }
    }

    /// Returns the values that are left when all variables are fixed.
    pub fn openings(&self) -> (r: (Vec<Fp128>, Vec<Fp128>))
        requires
            self.is_valid(),
        ensures
            r.0@.len() == self.lefts@.len(),
            r.1@.len() == self.rights@.len(),
            forall|j: int| 0 <= j < r.0@.len() ==> #[trigger] r.0@[j] == self.lefts@[j]@[0],
            forall|j: int| 0 <= j < r.1@.len() ==> #[trigger] r.1@[j] == self.rights@[j]@[0],
    {
        proof {
            self.lemma_lengths();
            let n = choose|n: nat| self.size() == pow2(n);
            lemma_pow2_pos(n);
        }
        (first_entries(self.lefts.as_slice()), first_entries(self.rights.as_slice()))
    }
}

/// Returns the first entries of tables.
fn first_entries(tables: &[Vec<Fp128>]) -> (r: Vec<Fp128>)
    requires
        forall|j: int| 0 <= j < tables@.len() ==> (#[trigger] tables@[j])@.len() > 0,
    ensures
        r@.len() == tables@.len(),
        forall|j: int| 0 <= j < r@.len() ==> #[trigger] r@[j] == tables@[j]@[0],
{
    let mut out: Vec<Fp128> = Vec::with_capacity(tables.len());
    let mut j: usize = 0;
    while j < tables.len()
        invariant
            j <= tables@.len(),
            out@.len() == j,
            forall|j: int| 0 <= j < tables@.len() ==> (#[trigger] tables@[j])@.len() > 0,
            forall|i: int| 0 <= i < j ==> #[trigger] out@[i] == tables@[i]@[0],
        decreases tables@.len() - j,
    {
        assert(tables@[j as int]@.len() > 0);
        out.push(tables[j][0]);
        j = j + 1;
    }
    out
}

/// The round polynomials of an honest prover: round `k` has the values at 0, 1 and 2 of what is
/// left when the first `k` variables are fixed to the challenges.
pub open spec fn honest_rounds(
    rounds: Seq<Seq<int>>,
    lefts: Seq<Seq<int>>,
    rights: Seq<Seq<int>>,
    challenges: Seq<int>,
) -> bool {
    &&& rounds.len() == challenges.len()
    &&& forall|k: int|
        0 <= k < rounds.len() ==> #[trigger] rounds[k] == honest_round(
            all_folded_by(lefts, challenges.take(k)),
            all_folded_by(rights, challenges.take(k)),
        )
}

/// The values of a round polynomial at 0, 1 and 2, reduced.
pub open spec fn honest_round(lefts: Seq<Seq<int>>, rights: Seq<Seq<int>>) -> Seq<int> {
    Seq::new(3, |t: int| residue(product_round(lefts, rights, t)))
}

/// The residues of the multilinear extensions of tables at a point.
pub open spec fn evaluations(tables: Seq<Seq<int>>, point: Seq<int>) -> Seq<int> {
    Seq::new(tables.len(), |j: int| residue(evaluation(tables[j], point)))
}

/// Prove a product sumcheck for multilinears with equal power-of-two lengths.
///
/// Returns the claim, the proof and the values of the multilinears on both sides at the
/// challenges.
pub fn prove_product_sumcheck(
    lefts: &[Vec<Fp128>],
    rights: &[Vec<Fp128>],
    challenges: &[Fp128],
) -> (r: Result<
    (Fp128, ProductSumcheckProof, Vec<Fp128>, Vec<Fp128>),
    BatchedParityBridgeError,
>)
    ensures
        match r {
            Ok((claim, proof, final_lefts, final_rights)) => {
                let (ls, rs, cs) = (tables_of(lefts@), tables_of(rights@), residues(challenges@));
                &&& valid_tables(ls, rs)
                &&& ls[0].len() == pow2(cs.len())
                &&& claim@ == residue(product_total(ls, rs))
                &&& honest_rounds(rounds_of(proof.round_evals@), ls, rs, cs)
                &&& residues(final_lefts@) == evaluations(ls, cs)
                &&& residues(final_rights@) == evaluations(rs, cs)
            },
            Err(e) => e == BatchedParityBridgeError::InvalidSumcheck && !(valid_tables(
                tables_of(lefts@),
                tables_of(rights@),
            ) && lefts@[0]@.len() == pow2(challenges@.len())),
        },
{
    let ghost (ls, rs, cs) = (tables_of(lefts@), tables_of(rights@), residues(challenges@));
    let mut prover: ProductSumcheckProver = match ProductSumcheckProver::new(lefts, rights) {
        Ok(p) => p,
        Err(e) => {
            return Err(e);
        },
    };
    assert(prover.lefts@.len() == ls.len());
    assert(residues(prover.lefts@[0]@) == tables_of(prover.lefts@)[0]);
    assert(residues(lefts@[0]@) == ls[0]);
    let log_len: usize = prover.num_rounds();
    if challenges.len() != log_len {
        proof {
            lemma_exponents(challenges@.len(), log_len as nat);
            lemma_exponents(log_len as nat, challenges@.len());
        }
        return Err(BatchedParityBridgeError::InvalidSumcheck);
    }
    let initial_claim: Fp128 = prover.claim();
    let mut round_evals: Vec<[Fp128; 3]> = Vec::with_capacity(log_len);
    let mut k: usize = 0;
    proof {
        assert(cs.take(0) =~= Seq::<int>::empty());
        assert(all_folded_by(ls, cs.take(0)) =~= ls);
        assert(all_folded_by(rs, cs.take(0)) =~= rs);
    }
    while k < challenges.len()
        invariant
            k <= challenges@.len(),
            challenges@.len() == log_len,
            ls == tables_of(lefts@),
            rs == tables_of(rights@),
            cs == residues(challenges@),
            valid_tables(ls, rs),
            ls[0].len() == pow2(log_len as nat),
            prover.is_valid(),
            prover.size() == pow2((log_len - k) as nat),
            tables_congruent(tables_of(prover.lefts@), all_folded_by(ls, cs.take(k as int))),
            tables_congruent(tables_of(prover.rights@), all_folded_by(rs, cs.take(k as int))),
            round_evals@.len() == k,
            forall|i: int|
                0 <= i < k ==> values_of(#[trigger] round_evals@[i]) == honest_round(
                    all_folded_by(ls, cs.take(i)),
                    all_folded_by(rs, cs.take(i)),
                ),
        decreases challenges@.len() - k,
    {
        let ghost (l, r) = (tables_of(prover.lefts@), tables_of(prover.rights@));
        let ghost (x, y) = (
            all_folded_by(ls, cs.take(k as int)),
            all_folded_by(rs, cs.take(k as int)),
        );
        let round: [Fp128; 3] = prover.round_evals();
        proof {
            prover.lemma_lengths();
            let n = prover.size();
            assert forall|t: int| 0 <= t < 3 implies values_of(round)[t] == honest_round(x, y)[t] by {
                lemma_round_congruent(l, r, x, y, t, n);
                assert(round[t]@ == residue(product_round(l, r, t)));
            }
            assert(values_of(round) =~= honest_round(x, y));
            lemma_pow2_unfold((log_len - k) as nat);
            lemma_pow2_pos((log_len - k - 1) as nat);
        }
        round_evals.push(round);
        prover.fold(challenges[k]);
        proof {
            let c = challenges@[k as int]@;
            lemma_fold_one_more(ls, cs, k as int);
            lemma_fold_one_more(rs, cs, k as int);
            lemma_reduced_folds(l, x, c);
            lemma_reduced_folds(r, y, c);
        }
        k = k + 1;
    }
    proof {
        prover.lemma_lengths();
        lemma2_to64();
        assert(cs.take(k as int) =~= cs);
    }
    let (final_lefts, final_rights) = prover.openings();
    proof {
        assert(rounds_of(round_evals@).len() == cs.len());
        lemma_final_values(prover.lefts@, ls, cs, final_lefts@);
        lemma_final_values(prover.rights@, rs, cs, final_rights@);
    }
    Ok((initial_claim, ProductSumcheckProof { round_evals }, final_lefts, final_rights))
}

/// What is left when all variables are fixed are the values at the challenges.
proof fn lemma_final_values(
    state: Seq<Vec<Fp128>>,
    tables: Seq<Seq<int>>,
    point: Seq<int>,
    values: Seq<Fp128>,
)
    requires
        tables_congruent(tables_of(state), all_folded_by(tables, point)),
        all_of_length(tables, pow2(point.len())),
        values.len() == state.len(),
        forall|j: int| 0 <= j < values.len() ==> #[trigger] values[j] == state[j]@[0],
    ensures
        residues(values) == evaluations(tables, point),
{
    assert forall|j: int| 0 <= j < values.len() implies residues(values)[j] == evaluations(
        tables,
        point,
    )[j] by {
        assert(tables[j].len() == pow2(point.len()));
        law_fold_all_evaluates(tables[j], point);
        let (a, b) = (tables_of(state)[j], all_folded_by(tables, point)[j]);
        assert(all_congruent(a, b));
        assert(congruent(a[0], b[0]));
        assert(values[j] == state[j]@[0]);
        values[j].lemma_view();
    }
    assert(residues(values) =~= evaluations(tables, point));
}

/// Congruent tables have congruent round polynomials.
proof fn lemma_round_congruent(
    a: Seq<Seq<int>>,
    b: Seq<Seq<int>>,
    c: Seq<Seq<int>>,
    d: Seq<Seq<int>>,
    t: int,
    n: nat,
)
    requires
        tables_congruent(a, c),
        tables_congruent(b, d),
        a.len() == b.len(),
        all_of_length(a, n),
        all_of_length(b, n),
    ensures
        congruent(product_round(a, b, t), product_round(c, d, t)),
{
    lemma_folds_congruent(a, c, t);
    lemma_folds_congruent(b, d, t);
    assert forall|j: int| 0 <= j < a.len() implies (#[trigger] all_folded(a, t)[j]).len() == n / 2 by {
        assert(a[j].len() == n);
    }
    assert forall|j: int| 0 <= j < b.len() implies (#[trigger] all_folded(b, t)[j]).len() == n / 2 by {
        assert(b[j].len() == n);
    }
    lemma_total_congruent(
        all_folded(a, t),
        all_folded(b, t),
        all_folded(c, t),
        all_folded(d, t),
        n / 2,
    );
}

/// Fixing a variable and reducing keeps tables congruent.
proof fn lemma_reduced_folds(a: Seq<Seq<int>>, b: Seq<Seq<int>>, c: int)
    requires
        tables_congruent(a, b),
    ensures
        tables_congruent(all_reduced(all_folded(a, c)), all_folded(b, c)),
{
    lemma_folds_congruent(a, b, c);
    let (p, q) = (all_folded(a, c), all_folded(b, c));
    assert forall|j: int| 0 <= j < a.len() implies all_congruent(
        #[trigger] all_reduced(p)[j],
        q[j],
    ) by {
        assert(all_congruent(p[j], q[j]));
        lemma_reduced(p[j]);
        assert forall|i: int| 0 <= i < p[j].len() implies #[trigger] congruent(
            all_reduced(p)[j][i],
            q[j][i],
        ) by {
            assert(congruent(p[j][i], q[j][i]));
            assert(congruent(reduced(p[j])[i], p[j][i]));
        }
    }
}

/// The product of two lines, as a polynomial.
proof fn lemma_lines(a0: int, a1: int, b0: int, b1: int, t: int)
    ensures
        interpolated(a0, a1, t) * interpolated(b0, b1, t) == cubic_at(
            seq![
                a0 * b0,
                a0 * (b1 - b0) + (a1 - a0) * b0,
                (a1 - a0) * (b1 - b0),
                0,
            ],
            t,
        ),
{
    let (da, db) = (a1 - a0, b1 - b0);
    let (u, v) = (t * da, t * db);
    assert((a0 + u) * (b0 + v) == a0 * b0 + a0 * v + u * b0 + u * v) by (nonlinear_arith);
    assert(a0 * v == (a0 * db) * t) by (nonlinear_arith)
        requires
            v == t * db,
    ;
    assert(u * b0 == (da * b0) * t) by (nonlinear_arith)
        requires
            u == t * da,
    ;
    assert(u * v == (da * db) * (t * t)) by (nonlinear_arith)
        requires
            u == t * da,
            v == t * db,
    ;
    assert((a0 * db + da * b0) * t == (a0 * db) * t + (da * b0) * t) by (nonlinear_arith);
    assert(0 * (t * (t * t)) == 0);
}

/// The sum of the first products of two tables with a variable fixed is a polynomial in the value
/// of that variable, of degree at most two.
proof fn lemma_dot_polynomial(a: Seq<int>, b: Seq<int>, n: nat) -> (c: Seq<int>)
    requires
        a.len() == b.len(),
        n <= a.len() / 2,
    ensures
        c.len() == 4,
        c[3] == 0,
        forall|t: int| #[trigger]
            cubic_at(c, t) == sum(
                pointwise_times(folded_low(a, t), folded_low(b, t)).take(n as int),
            ),
    decreases n,
{
    if n == 0 {
        let c = seq![0int, 0, 0, 0];
        assert forall|t: int| #[trigger]
            cubic_at(c, t) == sum(
                pointwise_times(folded_low(a, t), folded_low(b, t)).take(n as int),
            ) by {
            assert(0 * t == 0 && 0 * (t * t) == 0 && 0 * (t * (t * t)) == 0) by (nonlinear_arith);
            assert(pointwise_times(folded_low(a, t), folded_low(b, t)).take(0) =~= Seq::<
                int,
            >::empty());
            assert(sum(Seq::<int>::empty()) == 0);
        }
        c
    } else {
        let k = n - 1;
        let d = lemma_dot_polynomial(a, b, k as nat);
        let (a0, a1, b0, b1) = (a[2 * k], a[2 * k + 1], b[2 * k], b[2 * k + 1]);
        let e = seq![a0 * b0, a0 * (b1 - b0) + (a1 - a0) * b0, (a1 - a0) * (b1 - b0), 0];
        let c = cubic_plus(d, e);
        assert forall|t: int| #[trigger]
            cubic_at(c, t) == sum(
                pointwise_times(folded_low(a, t), folded_low(b, t)).take(n as int),
            ) by {
            let p = pointwise_times(folded_low(a, t), folded_low(b, t));
            lemma_sum_take(p, k);
            lemma_lines(a0, a1, b0, b1, t);
            lemma_cubic_plus(d, e, t);
            assert(cubic_at(d, t) == sum(p.take(k)));
        }
        c
    }
}

/// A round polynomial is a polynomial of degree at most two.
pub proof fn law_product_round_is_quadratic(lefts: Seq<Seq<int>>, rights: Seq<Seq<int>>) -> (c: Seq<
    int,
>)
    requires
        lefts.len() == rights.len(),
        forall|j: int| 0 <= j < lefts.len() ==> (#[trigger] lefts[j]).len() == rights[j].len(),
    ensures
        c.len() == 4,
        c[3] == 0,
        forall|t: int| #[trigger] cubic_at(c, t) == product_round(lefts, rights, t),
    decreases lefts.len(),
{
    if lefts.len() == 0 {
        let c = seq![0int, 0, 0, 0];
        assert forall|t: int| #[trigger] cubic_at(c, t) == product_round(lefts, rights, t) by {
            assert(0 * t == 0 && 0 * (t * t) == 0 && 0 * (t * (t * t)) == 0) by (nonlinear_arith);
        }
        c
    } else {
        let (ls, rs) = (lefts.drop_last(), rights.drop_last());
        assert forall|j: int| 0 <= j < ls.len() implies (#[trigger] ls[j]).len() == rs[j].len() by {
            assert(lefts[j].len() == rights[j].len());
        }
        let d = law_product_round_is_quadratic(ls, rs);
        let (l, r) = (lefts.last(), rights.last());
        assert(lefts[lefts.len() - 1].len() == rights[lefts.len() - 1].len());
        let e = lemma_dot_polynomial(l, r, l.len() / 2);
        let c = cubic_plus(d, e);
        assert forall|t: int| #[trigger] cubic_at(c, t) == product_round(lefts, rights, t) by {
            lemma_cubic_plus(d, e, t);
            let p = table_products(all_folded(lefts, t), all_folded(rights, t));
            assert(p.drop_last() =~= table_products(all_folded(ls, t), all_folded(rs, t)));
            assert(cubic_at(d, t) == product_round(ls, rs, t));
            let q = pointwise_times(folded_low(l, t), folded_low(r, t));
            assert(q.take((l.len() / 2) as int) =~= q);
            assert(cubic_at(e, t) == sum(q));
        }
        c
    }
}

/// The sum of all products of two tables of even length is the sum of the products with the lowest
/// variable fixed to zero and to one.
proof fn lemma_dot_halves(a: Seq<int>, b: Seq<int>, n: nat)
    requires
        a.len() == b.len(),
        2 * n <= a.len(),
    ensures
        sum(pointwise_times(a, b).take(2 * n as int)) == sum(
            pointwise_times(folded_low(a, 0), folded_low(b, 0)).take(n as int),
        ) + sum(pointwise_times(folded_low(a, 1), folded_low(b, 1)).take(n as int)),
    decreases n,
{
    let p = pointwise_times(a, b);
    let p0 = pointwise_times(folded_low(a, 0), folded_low(b, 0));
    let p1 = pointwise_times(folded_low(a, 1), folded_low(b, 1));
    if n == 0 {
        assert(p.take(0) =~= Seq::<int>::empty());
        assert(p0.take(0) =~= Seq::<int>::empty());
        assert(p1.take(0) =~= Seq::<int>::empty());
        assert(sum(Seq::<int>::empty()) == 0);
    } else {
        let k = n - 1;
        lemma_dot_halves(a, b, k as nat);
        lemma_sum_take(p, 2 * k);
        lemma_sum_take(p, 2 * k + 1);
        lemma_sum_take(p0, k);
        lemma_sum_take(p1, k);
        assert(folded_low(a, 0)[k] == a[2 * k] && folded_low(b, 0)[k] == b[2 * k]);
        assert(folded_low(a, 1)[k] == a[2 * k + 1] && folded_low(b, 1)[k] == b[2 * k + 1]);
    }
}

/// The values of a round polynomial at zero and one add up to the claim of the round.
pub proof fn law_product_round_meets_claim(lefts: Seq<Seq<int>>, rights: Seq<Seq<int>>)
    requires
        lefts.len() == rights.len(),
        forall|j: int|
            0 <= j < lefts.len() ==> (#[trigger] lefts[j]).len() == rights[j].len()
                && lefts[j].len() % 2 == 0,
    ensures
        product_round(lefts, rights, 0) + product_round(lefts, rights, 1) == product_total(
            lefts,
            rights,
        ),
{
    let p = table_products(lefts, rights);
    let p0 = table_products(all_folded(lefts, 0), all_folded(rights, 0));
    let p1 = table_products(all_folded(lefts, 1), all_folded(rights, 1));
    assert(p =~= pointwise_plus(p0, p1)) by {
        assert forall|j: int| 0 <= j < p.len() implies p[j] == p0[j] + p1[j] by {
            let (a, b) = (lefts[j], rights[j]);
            let n = a.len() / 2;
            lemma_dot_halves(a, b, n);
            let q = pointwise_times(a, b);
            let q0 = pointwise_times(folded_low(a, 0), folded_low(b, 0));
            let q1 = pointwise_times(folded_low(a, 1), folded_low(b, 1));
            assert(q.take(2 * n as int) =~= q);
            assert(q0.take(n as int) =~= q0);
            assert(q1.take(n as int) =~= q1);
        }
    }
    lemma_sum_plus(p0, p1);
}

/// The polynomial through the values of an honest round is the round polynomial.
proof fn lemma_honest_round(lefts: Seq<Seq<int>>, rights: Seq<Seq<int>>, x: int)
    requires
        lefts.len() == rights.len(),
        forall|j: int| 0 <= j < lefts.len() ==> (#[trigger] lefts[j]).len() == rights[j].len(),
    ensures
        congruent(through(honest_round(lefts, rights), x), product_round(lefts, rights, x)),
{
    let c = law_product_round_is_quadratic(lefts, rights);
    let (e, f) = (honest_round(lefts, rights), first_values(c, 3));
    assert(cubic_at(c, 0) == product_round(lefts, rights, 0));
    assert(cubic_at(c, 1) == product_round(lefts, rights, 1));
    assert(cubic_at(c, 2) == product_round(lefts, rights, 2));
    lemma_congruent_to_residue(product_round(lefts, rights, 0));
    lemma_congruent_to_residue(product_round(lefts, rights, 1));
    lemma_congruent_to_residue(product_round(lefts, rights, 2));
    lemma_quadratic_congruent(e, f, x);
    law_quadratic_interpolates(c, x);
    assert(cubic_at(c, x) == product_round(lefts, rights, x));
}

/// After each round of an honest prover, the claim is the sum that is left.
proof fn lemma_honest_claims(
    lefts: Seq<Seq<int>>,
    rights: Seq<Seq<int>>,
    challenges: Seq<int>,
    rounds: Seq<Seq<int>>,
    k: nat,
)
    requires
        valid_tables(lefts, rights),
        lefts[0].len() == pow2(challenges.len()),
        honest_rounds(rounds, lefts, rights, challenges),
        k <= challenges.len(),
    ensures
        claim_after(residue(product_total(lefts, rights)), rounds, challenges, k) == Some(
            residue(
                product_total(
                    all_folded_by(lefts, challenges.take(k as int)),
                    all_folded_by(rights, challenges.take(k as int)),
                ),
            ),
        ),
    decreases k,
{
    let initial = residue(product_total(lefts, rights));
    if k == 0 {
        assert(all_folded_by(lefts, challenges.take(0)) =~= lefts) by {
            assert(challenges.take(0) =~= Seq::<int>::empty());
        }
        assert(all_folded_by(rights, challenges.take(0)) =~= rights) by {
            assert(challenges.take(0) =~= Seq::<int>::empty());
        }
    } else {
        let i = k - 1;
        lemma_honest_claims(lefts, rights, challenges, rounds, i as nat);
        let c = challenges[i];
        let (ls, rs) = (
            all_folded_by(lefts, challenges.take(i)),
            all_folded_by(rights, challenges.take(i)),
        );
        lemma_fold_one_more(lefts, challenges, i);
        lemma_fold_one_more(rights, challenges, i);
        let m = (challenges.len() - i) as nat;
        lemma_folded_lengths(lefts, challenges.take(i), challenges.len());
        lemma_folded_lengths(rights, challenges.take(i), challenges.len());
        lemma_pow2_unfold(m);
        assert forall|j: int| 0 <= j < ls.len() implies (#[trigger] ls[j]).len() == rs[j].len()
            && ls[j].len() % 2 == 0 by {
            assert(rs[j].len() == pow2(m));
        }
        law_product_round_meets_claim(ls, rs);
        let (q0, q1) = (product_round(ls, rs, 0), product_round(ls, rs, 1));
        lemma_congruent_to_residue(q0);
        lemma_congruent_to_residue(q1);
        lemma_congruent(residue(q0), residue(q1), q0, q1);
        lemma_residue(product_total(ls, rs));
        assert(rounds[i] == honest_round(ls, rs));
        lemma_honest_round(ls, rs, c);
    }
}

/// An honest product sumcheck is accepted, and leaves the sum of the products of the values of the
/// multilinears at the challenges as its final claim.
pub proof fn law_product_sumcheck_is_complete(
    lefts: Seq<Seq<int>>,
    rights: Seq<Seq<int>>,
    challenges: Seq<int>,
    rounds: Seq<Seq<int>>,
)
    requires
        valid_tables(lefts, rights),
        lefts[0].len() == pow2(challenges.len()),
        honest_rounds(rounds, lefts, rights, challenges),
    ensures
        final_claim(residue(product_total(lefts, rights)), rounds, challenges) == Some(
            residue(dot(evaluations(lefts, challenges), evaluations(rights, challenges))),
        ),
{
    lemma_honest_claims(lefts, rights, challenges, rounds, challenges.len());
    assert(challenges.take(challenges.len() as int) =~= challenges);
    let (ls, rs) = (all_folded_by(lefts, challenges), all_folded_by(rights, challenges));
    let (x, y) = (evaluations(lefts, challenges), evaluations(rights, challenges));
    let (p, q) = (table_products(ls, rs), pointwise_times(x, y));
    assert forall|j: int| 0 <= j < p.len() implies #[trigger] congruent(p[j], q[j]) by {
        assert(lefts[j].len() == pow2(challenges.len()));
        assert(rights[j].len() == pow2(challenges.len()));
        law_fold_all_evaluates(lefts[j], challenges);
        law_fold_all_evaluates(rights[j], challenges);
        let (a, b) = (evaluation(lefts[j], challenges), evaluation(rights[j], challenges));
        assert(pointwise_times(seq![a], seq![b]) =~= seq![a * b]);
        assert(seq![a * b].drop_last() =~= Seq::<int>::empty());
        assert(sum(Seq::<int>::empty()) == 0);
        lemma_congruent_to_residue(a);
        lemma_congruent_to_residue(b);
        lemma_congruent(a, b, residue(a), residue(b));
    }
    lemma_sum_congruent(p, q);
}

/// The sum of one product is an inner product, and reducing one of its tables does not change its
/// residue.
pub proof fn lemma_single_total(a: Seq<int>, t: Seq<int>)
    requires
        a.len() == t.len(),
    ensures
        residue(product_total(seq![a], seq![reduced(t)])) == residue(dot(a, t)),
{
    let p = table_products(seq![a], seq![reduced(t)]);
    assert(p =~= seq![dot(a, reduced(t))]);
    assert(p.drop_last() =~= Seq::<int>::empty());
    assert(sum(Seq::<int>::empty()) == 0);
    lemma_reduced(t);
    assert(all_congruent(a, a));
    lemma_dot_congruent(a, reduced(t), a, t);
}

/// An honest product sumcheck of one table and one reduced table is accepted for their inner
/// product, and leaves the product of their values at the challenges.
pub proof fn law_single_product_is_complete(
    a: Seq<int>,
    t: Seq<int>,
    challenges: Seq<int>,
    rounds: Seq<Seq<int>>,
)
    requires
        a.len() == pow2(challenges.len()),
        t.len() == pow2(challenges.len()),
        honest_rounds(rounds, seq![a], seq![reduced(t)], challenges),
    ensures
        final_claim(residue(dot(a, t)), rounds, challenges) == Some(
            residue(evaluation(a, challenges) * evaluation(t, challenges)),
        ),
{
    let (ls, rs) = (seq![a], seq![reduced(t)]);
    assert(valid_tables(ls, rs));
    law_product_sumcheck_is_complete(ls, rs, challenges, rounds);
    lemma_single_total(a, t);
    let (x, y) = (evaluations(ls, challenges), evaluations(rs, challenges));
    let (b, v) = (evaluation(a, challenges), evaluation(t, challenges));
    let w = evaluation(reduced(t), challenges);
    let p = pointwise_times(x, y);
    assert(p =~= seq![residue(b) * residue(w)]);
    assert(p.drop_last() =~= Seq::<int>::empty());
    assert(sum(Seq::<int>::empty()) == 0);
    lemma_reduced(t);
    let e = eq_table(challenges);
    lemma_eq_table_len(challenges);
    assert(all_congruent(e, e));
    lemma_dot_congruent(reduced(t), e, t, e);
    lemma_congruent_to_residue(b);
    lemma_congruent_to_residue(w);
    lemma_congruent(residue(b), residue(w), b, v);
}

} // verus!
