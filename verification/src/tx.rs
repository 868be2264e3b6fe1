use vstd::prelude::*;

verus! {

/// The mathematical content of a transaction: the two account
/// identifiers and the transferred amount.
#[verifier::ext_equal]
pub ghost struct TxView {
    pub from: Seq<char>,
    pub to: Seq<char>,
    pub value: u64,
}

/// A single value transfer: `value` units move from account `from`
/// to account `to`. Immutable once constructed; no validation is done
/// here (the addresses may be empty or equal, the value may be zero).
#[derive(Debug, Clone)]
pub struct Transaction {
    pub from: String,
    pub to: String,
    pub value: u64,
}

impl View for Transaction {
    type V = TxView;

    open spec fn view(&self) -> TxView {
        TxView { from: self.from@, to: self.to@, value: self.value }
    }
}

impl Transaction {
    pub fn new(from: String, to: String, value: u64) -> (r: Self)
        ensures
            r@ == (TxView { from: from@, to: to@, value: value }),
    {
        Self { from, to, value }
    }
}

impl PartialEq for Transaction {
    fn eq(&self, other: &Self) -> (r: bool) {
        self.from == other.from && self.to == other.to && self.value == other.value
    }
}

impl vstd::std_specs::cmp::PartialEqSpecImpl for Transaction {
    open spec fn obeys_eq_spec() -> bool {
        true
    }

    open spec fn eq_spec(&self, other: &Self) -> bool {
        self@ == other@
    }
}

} // verus!
