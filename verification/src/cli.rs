//! The command-line surface, as plain data: the collaborator that
//! parses arguments builds these values and dispatches on them.

use vstd::prelude::*;

use crate::tx::Transaction;
use crate::tx::TxView;

verus! {

/// A parsed invocation: which command to run.
pub struct Cli {
    pub command: Commands,
}

/// The two commands the store's collaborator exposes.
pub enum Commands {
    /// Print the balances.
    List,
    /// Submit one transaction.
    Add(AddArgs),
}

/// `list` takes no arguments.
pub struct ListArgs {}

/// The positional arguments of `add`.
pub struct AddArgs {
    pub from: String,
    pub to: String,
    pub value: u64,
}

impl AddArgs {
    /// The transaction this invocation asks for.
    pub fn into_transaction(self) -> (r: Transaction)
        ensures
            r@ == (TxView { from: self.from@, to: self.to@, value: self.value }),
    {
        Transaction::new(self.from, self.to, self.value)
    }
}

} // verus!
