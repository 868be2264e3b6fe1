//! The ledger store: the balance table, the pending-transaction
//! queue (mempool), and the replay rule that rebuilds both from the
//! persisted log lines.
//!
//! The store itself never touches a file: it is constructed from the
//! log's lines and hands back the lines to append, so that everything
//! it decides — validation, application, replay, draining — is
//! verified here against the mapping `balances_map` and the sequence
//! `mempool_seq`.

use vstd::prelude::*;
use vstd::string::StrSliceExecFns;
use vstd::string::StringExecFns;

use crate::codec::decode_tx;
use crate::codec::encode_tx;
use crate::codec::spec_decode;
use crate::codec::spec_encode;
use crate::tx::Transaction;
use crate::tx::TxView;

verus! {

/// Why a store call failed. File handling sits outside the store, so
/// input/output failures are reported by the caller that does the
/// reading and writing, not here.
#[derive(Debug, Clone, Copy, PartialEq, Eq, Structural)]
pub enum LedgerError {
    /// The sender has no balance entry, or a balance below the
    /// transferred value.
    InsufficientBalance,
    /// A log line does not read back as a transaction.
    CorruptLog,
}

/// The fixed allocation the one genesis account starts with.
pub const GENESIS_BALANCE: u64 = 1_000_000_000;

/// The one account seeded before any log line is replayed.
pub open spec fn genesis_addr() -> Seq<char> {
    "GENESIS"@
}

/// The balance table before any log line is replayed.
pub open spec fn genesis_map() -> Map<Seq<char>, u64> {
    Map::empty().insert(genesis_addr(), GENESIS_BALANCE)
}

/// Whether `t` may be applied under the balances `m`: its sender must
/// have an entry, and the entry must cover the transferred value.
pub open spec fn spec_can_apply(m: Map<Seq<char>, u64>, t: TxView) -> bool {
    m.contains_key(t.from) && t.value <= m[t.from]
}

/// The balances after applying `t`: the sender is debited, the
/// recipient credited, a recipient without an entry starting from
/// zero. Debit first, so a self-transfer nets to no change.
pub open spec fn spec_apply(m: Map<Seq<char>, u64>, t: TxView) -> Map<Seq<char>, u64>
    recommends
        spec_can_apply(m, t),
{
    let m1 = m.insert(t.from, (m[t.from] - t.value) as u64);
    let prev = if m1.contains_key(t.to) {
        m1[t.to]
    } else {
        0u64
    };
    m1.insert(t.to, (prev + t.value) as u64)
}

/// Replays `lines` in order on top of the balances `m`: an empty line
/// is passed over, an unreadable line stops the replay as corrupt,
/// and every readable line goes through the same rule as a live
/// submission.
pub open spec fn spec_replay_from(m: Map<Seq<char>, u64>, lines: Seq<Seq<char>>) -> Result<
    Map<Seq<char>, u64>,
    LedgerError,
>
    decreases lines.len(),
{
    if lines.len() == 0 {
        Ok(m)
    } else if lines[0].len() == 0 {
        spec_replay_from(m, lines.drop_first())
    } else {
        match spec_decode(lines[0]) {
            None => Err(LedgerError::CorruptLog),
            Some(t) => if spec_can_apply(m, t) {
                spec_replay_from(spec_apply(m, t), lines.drop_first())
            } else {
                Err(LedgerError::InsufficientBalance)
            },
        }
    }
}

/// The balances a store holds after starting up against a log made of
/// `lines`: genesis first, then every line in order, exactly once.
pub open spec fn spec_replay(lines: Seq<Seq<char>>) -> Result<Map<Seq<char>, u64>, LedgerError> {
    spec_replay_from(genesis_map(), lines)
}

/// One row of the balance table.
struct AccountEntry {
    addr: String,
    amount: u64,
}

/// The ledger store: authoritative balances plus the queue of
/// transactions accepted but not yet handed out for the log.
pub struct State {
    balances: Vec<AccountEntry>,
    mempool: Vec<Transaction>,
}

// ---------------------------------------------------------------------------
// The table as a mapping, and its sum
// ---------------------------------------------------------------------------

/// The mapping a row sequence stands for; a later row with the same
/// address would win, but well-formed tables have no such rows.
spec fn entries_map(s: Seq<AccountEntry>) -> Map<Seq<char>, u64>
    decreases s.len(),
{
    if s.len() == 0 {
        Map::empty()
    } else {
        entries_map(s.drop_last()).insert(s.last().addr@, s.last().amount)
    }
}

/// No two rows name the same account.
spec fn distinct_addrs(s: Seq<AccountEntry>) -> bool {
    forall|i: int, j: int| 0 <= i < j < s.len() ==> s[i].addr@ != s[j].addr@
}

/// The total value the table holds.
spec fn sum_amounts(s: Seq<AccountEntry>) -> int
    decreases s.len(),
{
    if s.len() == 0 {
        0
    } else {
        sum_amounts(s.drop_last()) + s.last().amount
    }
}

proof fn lemma_entries_map_contains(s: Seq<AccountEntry>, a: Seq<char>)
    ensures
        entries_map(s).contains_key(a) <==> exists|i: int| 0 <= i < s.len() && s[i].addr@ == a,
    decreases s.len(),
{
    if s.len() > 0 {
        lemma_entries_map_contains(s.drop_last(), a);
        if entries_map(s).contains_key(a) {
            if s.last().addr@ == a {
                assert(s[s.len() - 1].addr@ == a);
            } else {
                let i = choose|i: int| 0 <= i < s.len() - 1 && s.drop_last()[i].addr@ == a;
                assert(s[i].addr@ == a);
            }
        }
        if exists|i: int| 0 <= i < s.len() && s[i].addr@ == a {
            let i = choose|i: int| 0 <= i < s.len() && s[i].addr@ == a;
            if i < s.len() - 1 {
                assert(s.drop_last()[i].addr@ == a);
            }
        }
    }
}

proof fn lemma_entries_map_index(s: Seq<AccountEntry>, i: int)
    requires
        distinct_addrs(s),
        0 <= i < s.len(),
    ensures
        entries_map(s).contains_key(s[i].addr@),
        entries_map(s)[s[i].addr@] == s[i].amount,
    decreases s.len(),
{
    if i == s.len() - 1 {
    } else {
        assert(distinct_addrs(s.drop_last()));
        assert(s.drop_last()[i] == s[i]);
        lemma_entries_map_index(s.drop_last(), i);
        assert(s[i].addr@ != s.last().addr@);
    }
}

proof fn lemma_entries_map_update(s: Seq<AccountEntry>, i: int, e: AccountEntry)
    requires
        distinct_addrs(s),
        0 <= i < s.len(),
        e.addr@ == s[i].addr@,
    ensures
        entries_map(s.update(i, e)) == entries_map(s).insert(e.addr@, e.amount),
    decreases s.len(),
{
    let su = s.update(i, e);
    if i == s.len() - 1 {
        assert(su.drop_last() =~= s.drop_last());
        assert(su.last() == e);
        assert(entries_map(s.drop_last()).insert(e.addr@, e.amount) =~= entries_map(
            s.drop_last(),
        ).insert(s.last().addr@, s.last().amount).insert(e.addr@, e.amount));
    } else {
        assert(distinct_addrs(s.drop_last()));
        assert(s.drop_last()[i] == s[i]);
        lemma_entries_map_update(s.drop_last(), i, e);
        assert(su.drop_last() =~= s.drop_last().update(i, e));
        assert(su.last() == s.last());
        assert(e.addr@ != s.last().addr@);
        assert(entries_map(s.drop_last()).insert(e.addr@, e.amount).insert(
            s.last().addr@,
            s.last().amount,
        ) =~= entries_map(s.drop_last()).insert(s.last().addr@, s.last().amount).insert(
            e.addr@,
            e.amount,
        ));
    }
}

proof fn lemma_sum_update(s: Seq<AccountEntry>, i: int, e: AccountEntry)
    requires
        0 <= i < s.len(),
    ensures
        sum_amounts(s.update(i, e)) == sum_amounts(s) - s[i].amount + e.amount,
    decreases s.len(),
{
    let su = s.update(i, e);
    if i == s.len() - 1 {
        assert(su.drop_last() =~= s.drop_last());
    } else {
        lemma_sum_update(s.drop_last(), i, e);
        assert(su.drop_last() =~= s.drop_last().update(i, e));
        assert(su.last() == s.last());
        assert(s.drop_last()[i] == s[i]);
    }
}

proof fn lemma_sum_nonneg(s: Seq<AccountEntry>)
    ensures
        sum_amounts(s) >= 0,
    decreases s.len(),
{
    if s.len() > 0 {
        lemma_sum_nonneg(s.drop_last());
    }
}

proof fn lemma_amount_le_sum(s: Seq<AccountEntry>, i: int)
    requires
        0 <= i < s.len(),
    ensures
        s[i].amount <= sum_amounts(s),
    decreases s.len(),
{
    if i == s.len() - 1 {
        lemma_sum_nonneg(s.drop_last());
    } else {
        assert(s.drop_last()[i] == s[i]);
        lemma_amount_le_sum(s.drop_last(), i);
    }
}

proof fn lemma_entries_map_push(s: Seq<AccountEntry>, e: AccountEntry)
    ensures
        entries_map(s.push(e)) == entries_map(s).insert(e.addr@, e.amount),
        sum_amounts(s.push(e)) == sum_amounts(s) + e.amount,
{
    assert(s.push(e).drop_last() =~= s);
    assert(s.push(e).last() == e);
}

// ---------------------------------------------------------------------------
// The store
// ---------------------------------------------------------------------------

impl State {
    /// The authoritative balances, as a mapping from account
    /// identifier to balance. Having an entry and holding zero are
    /// distinct: only an account that has an entry may send.
    pub closed spec fn balances_map(self) -> Map<Seq<char>, u64> {
        entries_map(self.balances@)
    }

    /// The accepted-but-not-yet-logged transactions, oldest first.
    pub closed spec fn mempool_seq(self) -> Seq<TxView> {
        self.mempool@.map_values(|t: Transaction| t@)
    }

    /// The total value the table holds. Transfers conserve it.
    pub closed spec fn balance_sum(self) -> int {
        sum_amounts(self.balances@)
    }

    /// Well-formedness: one row per account, and the total still the
    /// genesis allocation — a transfer moves value, never makes it.
    pub closed spec fn wf(self) -> bool {
        &&& distinct_addrs(self.balances@)
        &&& sum_amounts(self.balances@) == GENESIS_BALANCE
    }

    /// The row holding `addr`, if any.
    fn find(&self, addr: &String) -> (r: Option<usize>)
        ensures
            match r {
                Some(i) => i < self.balances@.len() && self.balances@[i as int].addr@ == addr@,
                None => forall|k: int|
                    0 <= k < self.balances@.len() ==> self.balances@[k].addr@ != addr@,
            },
    {
        let n = self.balances.len();
        let mut i: usize = 0;
        while i < n
            invariant
                i <= n,
                n == self.balances@.len(),
                forall|k: int| 0 <= k < i ==> self.balances@[k].addr@ != addr@,
            decreases n - i,
        {
            if self.balances[i].addr == *addr {
                return Some(i);
            }
            i = i + 1;
        }
        None
    }

    /// The validation-and-mutation rule shared by live submission and
    /// replay: on success the sender is debited and the recipient
    /// credited in one step, on failure nothing at all has moved.
    fn apply(&mut self, tx: &Transaction) -> (r: Result<(), LedgerError>)
        requires
            old(self).wf(),
        ensures
            final(self).wf(),
            final(self).mempool_seq() == old(self).mempool_seq(),
            match r {
                Ok(()) => spec_can_apply(old(self).balances_map(), tx@)
                    && final(self).balances_map() == spec_apply(old(self).balances_map(), tx@)
                    && final(self).balance_sum() == old(self).balance_sum(),
                Err(e) => e == LedgerError::InsufficientBalance
                    && !spec_can_apply(old(self).balances_map(), tx@)
                    && *final(self) == *old(self),
            },
    {
        let ghost s0 = self.balances@;
        let from_i = match self.find(&tx.from) {
            Some(i) => i,
            None => {
                proof {
                    lemma_entries_map_contains(s0, tx@.from);
                }
                return Err(LedgerError::InsufficientBalance);
            },
        };
        proof {
            lemma_entries_map_index(s0, from_i as int);
        }
        let from_bal = self.balances[from_i].amount;
        if from_bal < tx.value {
            return Err(LedgerError::InsufficientBalance);
        }
        let debited = AccountEntry { addr: tx.from.clone(), amount: from_bal - tx.value };
        self.balances[from_i] = debited;
        let ghost s1 = self.balances@;
        proof {
            assert(forall|k: int| 0 <= k < s1.len() ==> s1[k].addr@ == s0[k].addr@);
            assert(distinct_addrs(s1));
            lemma_entries_map_update(s0, from_i as int, debited);
            lemma_sum_update(s0, from_i as int, debited);
        }
        match self.find(&tx.to) {
            Some(to_i) => {
                proof {
                    lemma_entries_map_index(s1, to_i as int);
                    lemma_amount_le_sum(s1, to_i as int);
                }
                let to_bal = self.balances[to_i].amount;
                let credited = AccountEntry { addr: tx.to.clone(), amount: to_bal + tx.value };
                self.balances[to_i] = credited;
                proof {
                    let s2 = self.balances@;
                    assert(forall|k: int| 0 <= k < s2.len() ==> s2[k].addr@ == s1[k].addr@);
                    assert(distinct_addrs(s2));
                    lemma_entries_map_update(s1, to_i as int, credited);
                    lemma_sum_update(s1, to_i as int, credited);
                    assert(self.balances_map() == spec_apply(entries_map(s0), tx@));
                }
            },
            None => {
                proof {
                    lemma_entries_map_contains(s1, tx@.to);
                }
                let fresh = AccountEntry { addr: tx.to.clone(), amount: tx.value };
                self.balances.push(fresh);
                proof {
                    let s2 = self.balances@;
                    assert(forall|k: int| 0 <= k < s1.len() ==> s2[k] == s1[k]);
                    assert(distinct_addrs(s2));
                    lemma_entries_map_push(s1, fresh);
                    assert(self.balances_map() == spec_apply(entries_map(s0), tx@));
                }
            },
        }
        Ok(())
    }

    /// Opens the store against the lines of the log: seeds the
    /// genesis allocation, then replays every line in order, exactly
    /// once. The result — balances and error alike — is exactly
    /// `spec_replay` of the lines, so starting up twice against the
    /// same log gives the same balances.
    pub fn new(lines: &Vec<String>) -> (r: Result<State, LedgerError>)
        ensures
            match r {
                Ok(st) => {
                    &&& st.wf()
                    &&& st.balance_sum() == GENESIS_BALANCE
                    &&& st.mempool_seq() == Seq::<TxView>::empty()
                    &&& spec_replay(lines@.map_values(|l: String| l@)) == Ok::<_, LedgerError>(
                        st.balances_map(),
                    )
                },
                Err(e) => spec_replay(lines@.map_values(|l: String| l@)) == Err::<
                    Map<Seq<char>, u64>,
                    _,
                >(e),
            },
    {
        let ghost all = lines@.map_values(|l: String| l@);
        let mut st = State { balances: Vec::new(), mempool: Vec::new() };
        let seed = AccountEntry { addr: String::from_str("GENESIS"), amount: GENESIS_BALANCE };
        st.balances.push(seed);
        proof {
            assert(entries_map(Seq::<AccountEntry>::empty()) == Map::<Seq<char>, u64>::empty());
            lemma_entries_map_push(Seq::<AccountEntry>::empty(), seed);
            assert(st.balances_map() =~= genesis_map());
            assert(st.wf());
            assert(st.mempool_seq() =~= Seq::<TxView>::empty());
            assert(all.skip(0) =~= all);
        }
        let mut k: usize = 0;
        while k < lines.len()
            invariant
                k <= lines.len(),
                all == lines@.map_values(|l: String| l@),
                st.wf(),
                st.mempool_seq() == Seq::<TxView>::empty(),
                spec_replay(all) == spec_replay_from(st.balances_map(), all.skip(k as int)),
            decreases lines.len() - k,
        {
            let line = &lines[k];
            proof {
                assert(all[k as int] == line@);
                assert(all.skip(k as int)[0] == all[k as int]);
                assert(all.skip(k as int).drop_first() =~= all.skip(k as int + 1));
            }
            if line.as_str().unicode_len() > 0 {
                let tx = match decode_tx(line.as_str()) {
                    Some(t) => t,
                    None => {
                        return Err(LedgerError::CorruptLog);
                    },
                };
                match st.apply(&tx) {
                    Ok(()) => {},
                    Err(e) => {
                        return Err(e);
                    },
                }
            }
            k = k + 1;
        }
        proof {
            assert(all.skip(lines@.len() as int) =~= Seq::<Seq<char>>::empty());
        }
        Ok(st)
    }

    /// Accepts a transaction: applies it to the balances and, on
    /// success, queues it for the log. On failure the store is left
    /// exactly as it was and nothing is queued.
    pub fn add(&mut self, tx: Transaction) -> (r: Result<(), LedgerError>)
        requires
            old(self).wf(),
        ensures
            final(self).wf(),
            match r {
                Ok(()) => spec_can_apply(old(self).balances_map(), tx@)
                    && final(self).balances_map() == spec_apply(old(self).balances_map(), tx@)
                    && final(self).balance_sum() == old(self).balance_sum()
                    && final(self).mempool_seq() == old(self).mempool_seq().push(tx@),
                Err(e) => e == LedgerError::InsufficientBalance
                    && !spec_can_apply(old(self).balances_map(), tx@)
                    && *final(self) == *old(self),
            },
    {
        let ghost t = tx@;
        match self.apply(&tx) {
            Ok(()) => {
                let ghost before = self.mempool@;
                self.mempool.push(tx);
                proof {
                    assert(self.mempool@.map_values(|x: Transaction| x@) =~= before.map_values(
                        |x: Transaction| x@,
                    ).push(t));
                }
                Ok(())
            },
            Err(e) => Err(e),
        }
    }

    /// The log line for the oldest queued transaction, if any.
    pub fn front_line(&self) -> (r: Option<String>)
        ensures
            match r {
                Some(l) => self.mempool_seq().len() > 0 && l@ == spec_encode(self.mempool_seq()[0]),
                None => self.mempool_seq().len() == 0,
            },
    {
        if self.mempool.len() == 0 {
            None
        } else {
            Some(encode_tx(&self.mempool[0]))
        }
    }

    /// Removes the oldest queued transaction — to be called once its
    /// line has durably reached the log, so that a failed write
    /// leaves the rest queued for a later attempt.
    pub fn drop_front(&mut self)
        requires
            old(self).mempool_seq().len() > 0,
        ensures
            final(self).mempool_seq() == old(self).mempool_seq().drop_first(),
            final(self).balances_map() == old(self).balances_map(),
            final(self).balance_sum() == old(self).balance_sum(),
            final(self).wf() == old(self).wf(),
    {
        let ghost before = self.mempool@;
        self.mempool.remove(0);
        proof {
            assert(self.mempool@.map_values(|x: Transaction| x@) =~= before.map_values(
                |x: Transaction| x@,
            ).drop_first());
        }
    }

    /// Drains the queue for persistence: hands back one log line per
    /// queued transaction, oldest first, and leaves the queue empty.
    /// The balances are untouched — they are derived state, only the
    /// transactions that produced them are logged.
    pub fn save(&mut self) -> (lines: Vec<String>)
        ensures
            final(self).mempool_seq() == Seq::<TxView>::empty(),
            final(self).balances_map() == old(self).balances_map(),
            final(self).balance_sum() == old(self).balance_sum(),
            final(self).wf() == old(self).wf(),
            lines@.len() == old(self).mempool_seq().len(),
            forall|i: int|
                0 <= i < lines@.len() ==> lines@[i]@ == spec_encode(old(self).mempool_seq()[i]),
    {
        let mut lines: Vec<String> = Vec::new();
        proof {
            assert(old(self).mempool_seq().skip(0) =~= old(self).mempool_seq());
        }
        loop
            invariant
                lines@.len() <= old(self).mempool_seq().len(),
                self.mempool_seq() == old(self).mempool_seq().skip(lines@.len() as int),
                self.balances_map() == old(self).balances_map(),
                self.balance_sum() == old(self).balance_sum(),
                self.wf() == old(self).wf(),
                forall|i: int|
                    0 <= i < lines@.len() ==> lines@[i]@ == spec_encode(old(self).mempool_seq()[i]),
            decreases self.mempool_seq().len(),
        {
            match self.front_line() {
                Some(l) => {
                    proof {
                        assert(self.mempool_seq()[0] == old(self).mempool_seq()[lines@.len() as int]);
                        assert(self.mempool_seq().drop_first() =~= old(self).mempool_seq().skip(
                            lines@.len() as int + 1,
                        ));
                    }
                    lines.push(l);
                    self.drop_front();
                },
                None => {
                    proof {
                        assert(lines@.len() == old(self).mempool_seq().len());
                    }
                    return lines;
                },
            }
        }
    }

    /// How many transactions wait in the queue.
    pub fn mempool_len(&self) -> (n: usize)
        ensures
            n == self.mempool_seq().len(),
    {
        self.mempool.len()
    }

    /// The rows of the balance table, in table order: deterministic
    /// within one process run (a caller rendering them may sort by
    /// address, the mapping itself has no defined order).
    pub closed spec fn entries_view(self) -> Seq<(Seq<char>, u64)> {
        self.balances@.map_values(|e: AccountEntry| (e.addr@, e.amount))
    }

    /// Every listed row carries exactly the balance the mapping gives
    /// its address.
    pub proof fn lemma_entries_view_matches_map(self, i: int)
        requires
            self.wf(),
            0 <= i < self.entries_view().len(),
        ensures
            self.balances_map().contains_key(self.entries_view()[i].0),
            self.balances_map()[self.entries_view()[i].0] == self.entries_view()[i].1,
    {
        lemma_entries_map_index(self.balances@, i);
    }

    /// The balances for listing: one pair per account, in table
    /// order.
    pub fn balances_list(&self) -> (r: Vec<(String, u64)>)
        ensures
            r@.len() == self.entries_view().len(),
            forall|i: int|
                0 <= i < r@.len() ==> r@[i].0@ == self.entries_view()[i].0 && r@[i].1
                    == self.entries_view()[i].1,
    {
        let mut r: Vec<(String, u64)> = Vec::new();
        let n = self.balances.len();
        let mut i: usize = 0;
        while i < n
            invariant
                i <= n,
                n == self.balances@.len(),
                r@.len() == i,
                forall|k: int|
                    0 <= k < i ==> r@[k].0@ == self.entries_view()[k].0 && r@[k].1
                        == self.entries_view()[k].1,
            decreases n - i,
        {
            r.push((self.balances[i].addr.clone(), self.balances[i].amount));
            i = i + 1;
        }
        r
    }

    /// The balance of `addr`, or `None` for an account without an
    /// entry.
    pub fn balance_of(&self, addr: &String) -> (r: Option<u64>)
        requires
            self.wf(),
        ensures
            match r {
                Some(b) => self.balances_map().contains_key(addr@) && self.balances_map()[addr@]
                    == b,
                None => !self.balances_map().contains_key(addr@),
            },
    {
        match self.find(addr) {
            Some(i) => {
                proof {
                    lemma_entries_map_index(self.balances@, i as int);
                }
                Some(self.balances[i].amount)
            },
            None => {
                proof {
                    lemma_entries_map_contains(self.balances@, addr@);
                }
                None
            },
        }
    }
}

} // verus!
