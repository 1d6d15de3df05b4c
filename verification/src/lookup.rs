//! The lookup driver: collects witness reads against a three-column table
//! into wire multisets, and reduces table membership to a multiset-equality
//! instance by aggregating the table columns and the wires under a random
//! challenge.

use vstd::prelude::*;
use vstd::seq_lib::*;
use crate::scalar::Scalar;
use crate::scalar::scalar_from_nat;
use crate::scalar::lemma_scalar_from_nat_of_value;
use crate::scalar::limb_radix;
use crate::multiset::MultiSet;
use crate::multiset::set_views;
use crate::multiset::max_len;
use crate::multiset::aggregate_at;
use crate::multiset::aggregate_seq;
use crate::multiset::scalar_le;
use crate::multiset::padded_at;
use crate::multiset::lemma_scalar_le_total;
use crate::multiset::lemma_max_len_three;
use crate::multiset::lemma_aggregate_at_three;
use vstd::arithmetic::div_mod::lemma_fundamental_div_mod_converse;

verus! {

/// A three-column lookup table, read by key pair. The table's mathematical
/// content is a partial map from pairs of canonical representatives to the
/// output column.
pub trait LookUpTable: Sized {
    /// The partial map this table stands for.
    spec fn contents(&self) -> Map<(nat, nat), nat>;

    /// Looks up a key pair; returns the output entry exactly on the pairs
    /// the table holds.
    fn read(&self, key: &(Scalar, Scalar)) -> (r: Option<Scalar>)
        ensures
            match r {
                Some(v) => self.contents().contains_key((key.0.value(), key.1.value()))
                    && v.value() == self.contents()[(key.0.value(), key.1.value())]
                    && v.is_canonical(),
                None => !self.contents().contains_key((key.0.value(), key.1.value())),
            },
    ;
}

/// The element a wire is padded with: its last element, or zero when no
/// read has happened (the trivial padding of an empty reads set).
pub open spec fn pad_element(s: Seq<Scalar>) -> Scalar {
    if s.len() == 0 {
        scalar_from_nat(0)
    } else {
        s.last()
    }
}

/// Whether the wires can be padded onto table rows: either a read
/// happened (its last row pads) or the zero triple is itself a table row.
pub open spec fn pad_rows_in_table(wires: Seq<Scalar>, contents: Map<(nat, nat), nat>) -> bool {
    wires.len() >= 1 || contents.contains_pair((0nat, 0nat), 0nat)
}

/// Every row of `contents` appears among the preprocessed columns.
pub open spec fn columns_cover(pp: PreProcessedTable, contents: Map<(nat, nat), nat>) -> bool {
    forall|key: (nat, nat)|
        #[trigger] contents.contains_key(key) ==> exists|k: int|
            0 <= k < pp.t_1@.len() && (#[trigger] pp.t_1@[k]).value() == key.0
                && pp.t_2@[k].value() == key.1 && pp.t_3@[k].value() == contents[key]
}

/// Bitwise exclusive or of two 4-bit table inputs.
pub open spec fn xor4(a: nat, b: nat) -> nat {
    ((a as u64) ^ (b as u64)) as nat
}

/// The 4-bit XOR table: one row `(a, b, a ^ b)` for every pair of inputs
/// in `[0, 16)`.
pub struct XOR4BitTable;

impl XOR4BitTable {
    /// Creates the table.
    pub fn new() -> (r: XOR4BitTable) {
        XOR4BitTable
    }

    /// Builds the three table columns, row `j` holding
    /// `(j / 16, j % 16, (j / 16) ^ (j % 16))` for the first 256 rows, and
    /// padded to length `n` with replicas of the last row `(15, 15, 0)`.
    #[verifier::loop_isolation(false)]
    pub fn preprocess(&self, n: usize) -> (r: PreProcessedTable)
        requires
            n >= 256,
        ensures
            r.n == n,
            r.wf(),
            forall|j: int|
                0 <= j < 256 ==> (#[trigger] r.t_1@[j]).value() == j / 16 && r.t_2@[j].value() == j
                    % 16,
            forall|j: int|
                256 <= j < n ==> (#[trigger] r.t_1@[j]).value() == 15 && r.t_2@[j].value() == 15,
            forall|j: int|
                0 <= j < n ==> (#[trigger] r.t_3@[j]).value() == xor4(
                    r.t_1@[j].value(),
                    r.t_2@[j].value(),
                ),
            forall|j: int|
                0 <= j < n ==> (#[trigger] r.t_1@[j]).value() < 16 && r.t_2@[j].value() < 16,
            columns_cover(r, self.contents()),
    {
        let mut t_1 = MultiSet::new();
        let mut t_2 = MultiSet::new();
        let mut t_3 = MultiSet::new();
        let mut idx: usize = 0;
        while idx < 256
            invariant
                idx <= 256,
                t_1@.len() == idx,
                t_2@.len() == idx,
                t_3@.len() == idx,
                forall|j: int|
                    0 <= j < idx ==> (#[trigger] t_1@[j]).value() == j / 16 && t_1@[j] == (
                    scalar_from_nat((j / 16) as nat)),
                forall|j: int|
                    0 <= j < idx ==> (#[trigger] t_2@[j]).value() == j % 16 && t_2@[j] == (
                    scalar_from_nat((j % 16) as nat)),
                forall|j: int|
                    0 <= j < idx ==> (#[trigger] t_3@[j]).value() == xor4(
                        (j / 16) as nat,
                        (j % 16) as nat,
                    ),
                t_1.wf(),
                t_2.wf(),
                t_3.wf(),
            decreases 256 - idx,
        {
            let a = (idx / 16) as u64;
            let b = (idx % 16) as u64;
            let sa = Scalar::from_u64(a);
            let sb = Scalar::from_u64(b);
            let sc = Scalar::from_u64(a ^ b);
            proof {
                lemma_scalar_from_nat_of_value(sa);
                lemma_scalar_from_nat_of_value(sb);
            }
            t_1.push(sa);
            t_2.push(sb);
            t_3.push(sc);
            idx = idx + 1;
        }
        let fifteen = Scalar::from_u64(15);
        let zero = Scalar::from_u64(0);
        proof {
            assert(15u64 ^ 15u64 == 0u64) by (bit_vector);
        }
        t_1.extend(n - 256, fifteen);
        t_2.extend(n - 256, fifteen);
        t_3.extend(n - 256, zero);
        let result = PreProcessedTable { n, t_1, t_2, t_3 };
        proof {
            assert forall|key: (nat, nat)| #[trigger] self.contents().contains_key(key)
                implies exists|k: int|
                0 <= k < result.t_1@.len() && (#[trigger] result.t_1@[k]).value() == key.0
                    && result.t_2@[k].value() == key.1 && result.t_3@[k].value()
                    == self.contents()[key] by {
                let a = key.0;
                let b = key.1;
                let k = 16 * a + b;
                lemma_fundamental_div_mod_converse((16 * a + b) as int, 16, a as int, b as int);
                assert(k < 256);
                assert((result.t_1@[k as int]).value() == a);
                assert((result.t_2@[k as int]).value() == b);
                assert((result.t_3@[k as int]).value() == xor4(a, b));
            }
        }
        result
    }
}

impl LookUpTable for XOR4BitTable {
    open spec fn contents(&self) -> Map<(nat, nat), nat> {
        Map::new(|k: (nat, nat)| k.0 < 16 && k.1 < 16, |k: (nat, nat)| xor4(k.0, k.1))
    }

    fn read(&self, key: &(Scalar, Scalar)) -> (r: Option<Scalar>)
        ensures
            match r {
                Some(v) => self.contents().contains_key((key.0.value(), key.1.value()))
                    && v.value() == self.contents()[(key.0.value(), key.1.value())]
                    && v.is_canonical(),
                None => !self.contents().contains_key((key.0.value(), key.1.value())),
            },
    {
        let a = key.0;
        let b = key.1;
        proof {
            if a.l1 != 0 || a.l2 != 0 || a.l3 != 0 {
                assert(a.value() >= limb_radix());
            }
            if b.l1 != 0 || b.l2 != 0 || b.l3 != 0 {
                assert(b.value() >= limb_radix());
            }
        }
        if a.l0 < 16 && a.l1 == 0 && a.l2 == 0 && a.l3 == 0 && b.l0 < 16 && b.l1 == 0 && b.l2 == 0
            && b.l3 == 0 {
            Some(Scalar::from_u64(a.l0 ^ b.l0))
        } else {
            None
        }
    }
}

/// A preprocessed table: the three column multisets brought to a common
/// power-of-two length `n`. (The column commitments of the full protocol
/// live with the polynomial commitment scheme, outside this core.)
pub struct PreProcessedTable {
    pub n: usize,
    pub t_1: MultiSet,
    pub t_2: MultiSet,
    pub t_3: MultiSet,
}

impl PreProcessedTable {
    /// The three columns are canonical and share the length `n`.
    pub open spec fn wf(self) -> bool {
        &&& self.n >= 1
        &&& self.t_1@.len() == self.n
        &&& self.t_2@.len() == self.n
        &&& self.t_3@.len() == self.n
        &&& self.t_1.wf()
        &&& self.t_2.wf()
        &&& self.t_3.wf()
    }
}

/// The lookup driver: a table and the three wire multisets (left input,
/// right input, output) that successful reads accumulate into.
pub struct LookUp<T: LookUpTable> {
    pub table: T,
    pub left_wires: MultiSet,
    pub right_wires: MultiSet,
    pub output_wires: MultiSet,
}

impl<T: LookUpTable> LookUp<T> {
    /// The wires are canonical, of one shared length, and every wire
    /// triple is a row of the table.
    pub open spec fn wf(self) -> bool {
        &&& self.left_wires.wf()
        &&& self.right_wires.wf()
        &&& self.output_wires.wf()
        &&& self.right_wires@.len() == self.left_wires@.len()
        &&& self.output_wires@.len() == self.left_wires@.len()
        &&& forall|i: int|
            0 <= i < self.left_wires@.len() ==> self.table.contents().contains_pair(
                ((#[trigger] self.left_wires@[i]).value(), self.right_wires@[i].value()),
                self.output_wires@[i].value(),
            )
    }

    /// Creates a driver over `table` with empty wires.
    pub fn new(table: T) -> (r: LookUp<T>)
        ensures
            r.table == table,
            r.left_wires@ == Seq::<Scalar>::empty(),
            r.right_wires@ == Seq::<Scalar>::empty(),
            r.output_wires@ == Seq::<Scalar>::empty(),
            r.wf(),
    {
        LookUp {
            table,
            left_wires: MultiSet::new(),
            right_wires: MultiSet::new(),
            output_wires: MultiSet::new(),
        }
    }

    /// Reads a key pair from the table. On a hit the key and the table's
    /// output are pushed onto the wires and `true` comes back; on a miss
    /// the state is left unchanged and `false` comes back.
    pub fn read(&mut self, key: &(Scalar, Scalar)) -> (r: bool)
        ensures
            r == old(self).table.contents().contains_key((key.0.value(), key.1.value())),
            final(self).table == old(self).table,
            !r ==> *final(self) == *old(self),
            r ==> final(self).left_wires@ == old(self).left_wires@.push(key.0),
            r ==> final(self).right_wires@ == old(self).right_wires@.push(key.1),
            r ==> final(self).output_wires@ == old(self).output_wires@.push(
                scalar_from_nat(
                    old(self).table.contents()[(key.0.value(), key.1.value())],
                ),
            ),
            old(self).wf() && key.0.is_canonical() && key.1.is_canonical() ==> final(self).wf(),
    {
        let option_output = self.table.read(key);
        match option_output {
            None => false,
            Some(output) => {
                proof {
                    lemma_scalar_from_nat_of_value(output);
                }
                self.left_wires.push(key.0);
                self.right_wires.push(key.1);
                self.output_wires.push(output);
                true
            },
        }
    }

    /// Aggregates the table columns into one sorted multiset and the wires
    /// into one witness multiset under the challenge `alpha`, first padding
    /// each wire with replicas of its last element up to length `n - 1`.
    /// Returns `(merged_witness, merged_table)`.
    pub fn to_multiset(&mut self, preprocessed_table: &PreProcessedTable, alpha: Scalar) -> (r: (
        MultiSet,
        MultiSet,
    ))
        requires
            old(self).wf(),
            preprocessed_table.wf(),
            alpha.is_canonical(),
            old(self).left_wires@.len() <= preprocessed_table.n - 1,
        ensures
            final(self).table == old(self).table,
            final(self).left_wires@ == old(self).left_wires@ + Seq::new(
                (preprocessed_table.n - 1 - old(self).left_wires@.len()) as nat,
                |i: int| pad_element(old(self).left_wires@),
            ),
            final(self).right_wires@ == old(self).right_wires@ + Seq::new(
                (preprocessed_table.n - 1 - old(self).left_wires@.len()) as nat,
                |i: int| pad_element(old(self).right_wires@),
            ),
            final(self).output_wires@ == old(self).output_wires@ + Seq::new(
                (preprocessed_table.n - 1 - old(self).left_wires@.len()) as nat,
                |i: int| pad_element(old(self).output_wires@),
            ),
            pad_rows_in_table(old(self).left_wires@, old(self).table.contents())
                ==> final(self).wf(),
            r.0@ == aggregate_seq(
                seq![
                    final(self).left_wires@,
                    final(self).right_wires@,
                    final(self).output_wires@,
                ],
                alpha.value(),
            ),
            r.1@ == aggregate_seq(
                seq![
                    preprocessed_table.t_1@,
                    preprocessed_table.t_2@,
                    preprocessed_table.t_3@,
                ],
                alpha.value(),
            ).sort_by(scalar_le()),
            r.0@.len() == preprocessed_table.n - 1,
            r.1@.len() == preprocessed_table.n,
            r.0.wf(),
            r.1.wf(),
            columns_cover(*preprocessed_table, old(self).table.contents()) && pad_rows_in_table(
                old(self).left_wires@,
                old(self).table.contents(),
            ) ==> (forall|j: int| 0 <= j < r.0@.len() ==> r.1@.contains(#[trigger] r.0@[j])),
    {
        let mut table_sets: Vec<&MultiSet> = Vec::new();
        table_sets.push(&preprocessed_table.t_1);
        table_sets.push(&preprocessed_table.t_2);
        table_sets.push(&preprocessed_table.t_3);
        proof {
            lemma_views_of_three(
                table_sets@,
                preprocessed_table.t_1@,
                preprocessed_table.t_2@,
                preprocessed_table.t_3@,
            );
        }
        let merged = MultiSet::aggregate(table_sets, alpha);
        let merged_table = merged.sort();
        proof {
            to_multiset_len(merged@);
            to_multiset_len(merged_table@);
        }
        let pad_by = preprocessed_table.n - 1 - self.left_wires.len();
        let l_last = if self.left_wires.len() == 0 {
            Scalar::zero()
        } else {
            self.left_wires.last()
        };
        let r_last = if self.right_wires.len() == 0 {
            Scalar::zero()
        } else {
            self.right_wires.last()
        };
        let o_last = if self.output_wires.len() == 0 {
            Scalar::zero()
        } else {
            self.output_wires.last()
        };
        proof {
            lemma_scalar_from_nat_of_value(l_last);
            lemma_scalar_from_nat_of_value(r_last);
            lemma_scalar_from_nat_of_value(o_last);
        }
        self.left_wires.extend(pad_by, l_last);
        self.right_wires.extend(pad_by, r_last);
        self.output_wires.extend(pad_by, o_last);
        proof {
            let ghost old_len = old(self).left_wires@.len() as int;
            if pad_rows_in_table(old(self).left_wires@, old(self).table.contents()) {
                assert forall|i: int|
                    0 <= i < self.left_wires@.len() implies self.table.contents().contains_pair(
                    ((#[trigger] self.left_wires@[i]).value(), self.right_wires@[i].value()),
                    self.output_wires@[i].value(),
                ) by {
                    if i < old_len {
                        assert(self.left_wires@[i] == old(self).left_wires@[i]);
                        assert(self.right_wires@[i] == old(self).right_wires@[i]);
                    } else if old_len >= 1 {
                        assert(self.left_wires@[i] == old(self).left_wires@[old_len - 1]);
                        assert(self.right_wires@[i] == old(self).right_wires@[old_len - 1]);
                        assert(self.output_wires@[i] == old(self).output_wires@[old_len - 1]);
                    } else {
                        assert(self.left_wires@[i].value() == 0);
                        assert(self.right_wires@[i].value() == 0);
                        assert(self.output_wires@[i].value() == 0);
                    }
                }
            }
        }
        let mut wire_sets: Vec<&MultiSet> = Vec::new();
        wire_sets.push(&self.left_wires);
        wire_sets.push(&self.right_wires);
        wire_sets.push(&self.output_wires);
        proof {
            lemma_views_of_three(
                wire_sets@,
                self.left_wires@,
                self.right_wires@,
                self.output_wires@,
            );
        }
        let merged_witness = MultiSet::aggregate(wire_sets, alpha);
        proof {
            if columns_cover(*preprocessed_table, old(self).table.contents())
                && pad_rows_in_table(old(self).left_wires@, old(self).table.contents()) {
                lemma_lookup_completeness(
                    self.left_wires@,
                    self.right_wires@,
                    self.output_wires@,
                    *preprocessed_table,
                    self.table.contents(),
                    alpha.value(),
                    merged_witness@,
                    aggregate_seq(
                        seq![
                            preprocessed_table.t_1@,
                            preprocessed_table.t_2@,
                            preprocessed_table.t_3@,
                        ],
                        alpha.value(),
                    ),
                );
            }
        }
        (merged_witness, merged_table)
    }
}

/// Completeness core: when every wire triple of the witness is a row of
/// the table and the preprocessed columns list every table row, each
/// member of the aggregated witness occurs in the sorted aggregated
/// table. The multiset-equality instance the reduction hands on is
/// therefore satisfiable, whatever challenge was drawn.
pub proof fn lemma_lookup_completeness(
    l: Seq<Scalar>,
    r: Seq<Scalar>,
    o: Seq<Scalar>,
    pp: PreProcessedTable,
    contents: Map<(nat, nat), nat>,
    alpha: nat,
    wit: Seq<Scalar>,
    tab: Seq<Scalar>,
)
    requires
        r.len() == l.len(),
        o.len() == l.len(),
        forall|i: int|
            0 <= i < l.len() ==> contents.contains_pair(
                ((#[trigger] l[i]).value(), r[i].value()),
                o[i].value(),
            ),
        columns_cover(pp, contents),
        pp.wf(),
        wit == aggregate_seq(seq![l, r, o], alpha),
        tab == aggregate_seq(seq![pp.t_1@, pp.t_2@, pp.t_3@], alpha),
    ensures
        forall|j: int|
            0 <= j < wit.len() ==> tab.sort_by(scalar_le()).contains(#[trigger] wit[j]),
{
    broadcast use vstd::seq_lib::group_to_multiset_ensures;

    let sorted = tab.sort_by(scalar_le());
    lemma_scalar_le_total();
    tab.lemma_sort_by_ensures(scalar_le());
    lemma_max_len_three(l, r, o);
    lemma_max_len_three(pp.t_1@, pp.t_2@, pp.t_3@);
    assert forall|j: int| 0 <= j < wit.len() implies sorted.contains(#[trigger] wit[j]) by {
        assert(contents.contains_pair((l[j].value(), r[j].value()), o[j].value()));
        let key = (l[j].value(), r[j].value());
        assert(contents.contains_key(key));
        let k = choose|k: int|
            0 <= k < pp.t_1@.len() && (#[trigger] pp.t_1@[k]).value() == key.0
                && pp.t_2@[k].value() == key.1 && pp.t_3@[k].value() == contents[key];
        lemma_aggregate_at_three(l, r, o, alpha, j);
        lemma_aggregate_at_three(pp.t_1@, pp.t_2@, pp.t_3@, alpha, k);
        assert(padded_at(l, j) == pp.t_1@[k].value() && padded_at(r, j) == pp.t_2@[k].value()
            && padded_at(o, j) == pp.t_3@[k].value());
        assert(aggregate_at(seq![l, r, o], alpha, j) == aggregate_at(
            seq![pp.t_1@, pp.t_2@, pp.t_3@],
            alpha,
            k,
        ));
        assert(tab[k] == wit[j]);
        assert(tab.contains(wit[j]));
        vstd::seq_lib::to_multiset_contains(tab, wit[j]);
        vstd::seq_lib::to_multiset_contains(sorted, wit[j]);
    }
}

/// The views of a three-element list of borrowed multisets, and the length
/// of their aggregation.
proof fn lemma_views_of_three(sets: Seq<&MultiSet>, a: Seq<Scalar>, b: Seq<Scalar>, c: Seq<Scalar>)
    requires
        sets.len() == 3,
        sets[0]@ == a,
        sets[1]@ == b,
        sets[2]@ == c,
    ensures
        set_views(sets) == seq![a, b, c],
        max_len(seq![a, b, c]) == if a.len() >= b.len() && a.len() >= c.len() {
            a.len()
        } else if b.len() >= c.len() {
            b.len()
        } else {
            c.len()
        },
{
    assert(set_views(sets) =~= seq![a, b, c]);
    assert(seq![a, b, c].drop_first() =~= seq![b, c]);
    assert(seq![b, c].drop_first() =~= seq![c]);
    assert(seq![c].drop_first() =~= Seq::<Seq<Scalar>>::empty());
    assert(max_len(Seq::<Seq<Scalar>>::empty()) == 0);
    assert(seq![b, c][0] == b && seq![a, b, c][0] == a && seq![c][0] == c);
    assert(max_len(seq![c]) == c.len());
    assert(max_len(seq![b, c]) == if b.len() >= c.len() {
        b.len()
    } else {
        c.len()
    });
    assert(max_len(seq![a, b, c]) == if a.len() >= max_len(seq![b, c]) {
        a.len()
    } else {
        max_len(seq![b, c])
    });
}

} // verus!
