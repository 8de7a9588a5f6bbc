//! Resolving a transaction's inputs to the outputs they spend. This is the
//! only place that reads inputs for validation; the validator works on the
//! filled transaction alone.
use vstd::prelude::*;

use crate::content::FilledTransaction;
use crate::content::OutPoint;
use crate::content::Output;
use crate::content::OutputV;
use crate::content::Transaction;
use crate::content::copy_outpoints;
use crate::content::copy_output;
use crate::state::Error;
use crate::state::State;

verus! {

/// What filling yields: the spent outputs in input order, or `NoUtxo` for
/// the first input absent from the UTXO set.
pub open spec fn spec_fill(utxos: Map<OutPoint, OutputV>, inputs: Seq<OutPoint>) -> Result<
    Seq<OutputV>,
    Error,
>
    decreases inputs.len(),
{
    if inputs.len() == 0 {
        Ok(Seq::empty())
    } else if !utxos.dom().contains(inputs[0]) {
        Err(Error::NoUtxo { outpoint: inputs[0] })
    } else {
        match spec_fill(utxos, inputs.drop_first()) {
            Ok(rest) => Ok(seq![utxos[inputs[0]]] + rest),
            Err(e) => Err(e),
        }
    }
}

/// Filling succeeds exactly when every input is present, and then returns
/// the spent outputs pointwise.
pub proof fn lemma_spec_fill_ok(utxos: Map<OutPoint, OutputV>, inputs: Seq<OutPoint>)
    ensures
        (spec_fill(utxos, inputs) matches Ok(s)) <==> (forall|i: int|
            0 <= i < inputs.len() ==> utxos.dom().contains(#[trigger] inputs[i])),
        (spec_fill(utxos, inputs) matches Ok(s) ==> s.len() == inputs.len() && forall|i: int|
            0 <= i < inputs.len() ==> s[i] == utxos[#[trigger] inputs[i]]),
    decreases inputs.len(),
{
    if inputs.len() > 0 {
        lemma_spec_fill_ok(utxos, inputs.drop_first());
        if utxos.dom().contains(inputs[0]) {
            if forall|i: int| 0 <= i < inputs.drop_first().len()
                ==> utxos.dom().contains(#[trigger] inputs.drop_first()[i]) {
                assert forall|i: int| 0 <= i < inputs.len() implies utxos.dom().contains(
                    #[trigger] inputs[i],
                ) by {
                    if i > 0 {
                        assert(inputs.drop_first()[i - 1] == inputs[i]);
                    }
                }
                let rest = spec_fill(utxos, inputs.drop_first()).unwrap();
                let s = spec_fill(utxos, inputs).unwrap();
                assert(s == seq![utxos[inputs[0]]] + rest);
                assert forall|i: int| 0 <= i < inputs.len() implies s[i] == utxos[
                    #[trigger] inputs[i]
                ] by {
                    if i > 0 {
                        assert(s[i] == rest[i - 1]);
                        assert(inputs.drop_first()[i - 1] == inputs[i]);
                    }
                }
            } else {
                let j = choose|j: int| 0 <= j < inputs.drop_first().len()
                    && !utxos.dom().contains(#[trigger] inputs.drop_first()[j]);
                assert(inputs[j + 1] == inputs.drop_first()[j]);
            }
        }
    }
}

impl State {
    /// Loads the output each input references. Fails with `NoUtxo` on the
    /// first input absent from the UTXO set; the validator never re-reads
    /// inputs after this.
    pub fn fill_transaction(&self, transaction: &Transaction) -> (r: Result<
        FilledTransaction,
        Error,
    >)
        requires
            self.tables_wf(),
        ensures
            match r {
                Ok(ft) => {
                    &&& spec_fill(self.utxos@, transaction@.inputs) == Ok::<_, Error>(
                        ft@.spent_utxos,
                    )
                    &&& ft@.transaction == transaction@
                },
                Err(e) => spec_fill(self.utxos@, transaction@.inputs) == Err::<Seq<OutputV>, _>(
                    e,
                ),
            },
    {
        let ghost inputs = transaction@.inputs;
        let mut spent_utxos: Vec<Output> = Vec::new();
        let mut i: usize = 0;
        while i < transaction.inputs.len()
            invariant
                self.tables_wf(),
                i <= inputs.len(),
                inputs == transaction@.inputs,
                transaction.inputs@.len() == inputs.len(),
                spent_utxos@.len() == i,
                forall|j: int| 0 <= j < i ==> self.utxos@.dom().contains(#[trigger] inputs[j]),
                forall|j: int| 0 <= j < i ==> (#[trigger] spent_utxos@[j])@
                    == self.utxos@[inputs[j]],
            decreases inputs.len() - i,
        {
            match self.utxos.get(&transaction.inputs[i]) {
                Some(utxo) => {
                    let copied = copy_output(utxo);
                    spent_utxos.push(copied);
                },
                None => {
                    proof {
                        lemma_spec_fill_err(self.utxos@, inputs, i as int);
                    }
                    return Err(Error::NoUtxo { outpoint: transaction.inputs[i] });
                },
            }
            i = i + 1;
        }
        let filled = FilledTransaction {
            spent_utxos,
            transaction: Transaction {
                inputs: copy_outpoints(&transaction.inputs),
                outputs: copy_transaction_outputs(&transaction.outputs),
            },
        };
        proof {
            lemma_spec_fill_ok(self.utxos@, inputs);
            let s = spec_fill(self.utxos@, inputs).unwrap();
            assert(filled@.spent_utxos =~= s);
            assert(filled@.transaction.outputs =~= transaction@.outputs);
        }
        Ok(filled)
    }
}

/// If every input before `i` is present and input `i` is absent, filling
/// fails naming input `i`.
pub proof fn lemma_spec_fill_err(utxos: Map<OutPoint, OutputV>, inputs: Seq<OutPoint>, i: int)
    requires
        0 <= i < inputs.len(),
        forall|j: int| 0 <= j < i ==> utxos.dom().contains(#[trigger] inputs[j]),
        !utxos.dom().contains(inputs[i]),
    ensures
        spec_fill(utxos, inputs) == Err::<Seq<OutputV>, Error>(
            Error::NoUtxo { outpoint: inputs[i] },
        ),
    decreases inputs.len(),
{
    if i == 0 {
    } else {
        assert(utxos.dom().contains(inputs[0]));
        assert forall|j: int| 0 <= j < i - 1 implies utxos.dom().contains(
            #[trigger] inputs.drop_first()[j],
        ) by {
            assert(inputs.drop_first()[j] == inputs[j + 1]);
        }
        assert(inputs.drop_first()[i - 1] == inputs[i]);
        lemma_spec_fill_err(utxos, inputs.drop_first(), i - 1);
    }
}

pub fn copy_transaction_outputs(v: &Vec<Output>) -> (r: Vec<Output>)
    ensures
        r@.len() == v@.len(),
        forall|i: int| 0 <= i < v@.len() ==> (#[trigger] r@[i])@ == v@[i]@,
{
    let mut r: Vec<Output> = Vec::new();
    let mut i: usize = 0;
    while i < v.len()
        invariant
            i <= v.len(),
            r@.len() == i,
            forall|j: int| 0 <= j < i ==> (#[trigger] r@[j])@ == v@[j]@,
        decreases v.len() - i,
    {
        let o = copy_output(&v[i]);
        r.push(o);
        i = i + 1;
    }
    r
}

} // verus!
