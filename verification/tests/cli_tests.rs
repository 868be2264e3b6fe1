use ledger::cli::AddArgs;
use ledger::cli::Cli;
use ledger::cli::Commands;
use ledger::tx::Transaction;

#[test]
fn add_args_become_the_asked_for_transaction() {
    let args = AddArgs { from: String::from("GENESIS"), to: String::from("ABC"), value: 1000 };
    let t = args.into_transaction();
    assert_eq!(t, Transaction::new(String::from("GENESIS"), String::from("ABC"), 1000));
}

#[test]
fn commands_carry_their_arguments() {
    let cli = Cli {
        command: Commands::Add(
            AddArgs { from: String::from("A"), to: String::from("B"), value: 3 },
        ),
    };
    match cli.command {
        Commands::Add(args) => {
            assert_eq!(args.from, "A");
            assert_eq!(args.to, "B");
            assert_eq!(args.value, 3);
        },
        Commands::List => panic!("wrong command"),
    }
}
