use vstd::prelude::*;

use crate::error::StockError;

verus! {

/// Identifies a participant: an index into the ledger's funds.
pub type ParticipantId = usize;

/// Identifies a stock: an index into the ledger's stocks.
pub type StockId = usize;

/// Sum of all balances of a sequence.
pub open spec fn total(s: Seq<u64>) -> int
    decreases s.len(),
{
    if s.len() == 0 {
        0
    } else {
        total(s.drop_last()) + s.last()
    }
}

/// The balances after `amt` moved from `from` to `to`, assuming it can.
pub open spec fn moved(s: Seq<u64>, from: int, to: int, amt: nat) -> Seq<u64> {
    if from == to {
        s
    } else {
        s.update(from, (s[from] - amt) as u64).update(to, (s[to] + amt) as u64)
    }
}

/// Outcome of moving `amt` from `from` to `to` in the balances `s`: `short`
/// is the error reported when `from` holds less than `amt`.
pub open spec fn checked_move(s: Seq<u64>, from: int, to: int, amt: nat, short: StockError) -> Result<
    Seq<u64>,
    StockError,
> {
    if !(0 <= from < s.len() && 0 <= to < s.len()) {
        Err(StockError::NotFound)
    } else if s[from] < amt {
        Err(short)
    } else if from != to && s[to] + amt > u64::MAX {
        Err(StockError::ArithmeticOverflow)
    } else {
        Ok(moved(s, from, to, amt))
    }
}

/// Changing one balance changes the total by the difference.
pub proof fn lemma_total_update(s: Seq<u64>, i: int, v: u64)
    requires
        0 <= i < s.len(),
    ensures
        total(s.update(i, v)) == total(s) - s[i] + v,
    decreases s.len(),
{
    if i == s.len() - 1 {
        assert(s.update(i, v).drop_last() =~= s.drop_last());
    } else {
        lemma_total_update(s.drop_last(), i, v);
        assert(s.update(i, v).drop_last() =~= s.drop_last().update(i, v));
    }
}

/// A successful move keeps the total of the balances: nothing is created or
/// destroyed by a transfer.
pub proof fn lemma_move_conserves(s: Seq<u64>, from: int, to: int, amt: nat, short: StockError)
    requires
        checked_move(s, from, to, amt, short) is Ok,
    ensures
        total(checked_move(s, from, to, amt, short)->Ok_0) == total(s),
{
    if from != to {
        let s1 = s.update(from, (s[from] - amt) as u64);
        lemma_total_update(s, from, (s[from] - amt) as u64);
        assert(s1[to] == s[to]);
        lemma_total_update(s1, to, (s[to] + amt) as u64);
    }
}

/// A transfer of some amount from one participant to another.
pub struct Transfer {
    pub from: ParticipantId,
    pub to: ParticipantId,
    pub amount: u64,
}

/// Balances after the transfers `steps`, made in order; the first one that
/// cannot be made fails the whole sequence.
pub open spec fn apply_all(s: Seq<u64>, steps: Seq<Transfer>, short: StockError) -> Result<Seq<u64>, StockError>
    decreases steps.len(),
{
    if steps.len() == 0 {
        Ok(s)
    } else {
        match apply_all(s, steps.drop_last(), short) {
            Err(e) => Err(e),
            Ok(t) => checked_move(t, steps.last().from as int, steps.last().to as int, steps.last().amount as nat, short),
        }
    }
}

/// Any sequence of transfers that goes through leaves the sum of all
/// balances as it was.
pub proof fn lemma_transfers_conserve(s: Seq<u64>, steps: Seq<Transfer>, short: StockError)
    requires
        apply_all(s, steps, short) is Ok,
    ensures
        total(apply_all(s, steps, short)->Ok_0) == total(s),
    decreases steps.len(),
{
    if steps.len() > 0 {
        lemma_transfers_conserve(s, steps.drop_last(), short);
        let t = apply_all(s, steps.drop_last(), short)->Ok_0;
        lemma_move_conserves(t, steps.last().from as int, steps.last().to as int, steps.last().amount as nat, short);
    }
}

/// Moves `amt` from `from` to `to` in `v`, checking the source balance and the
/// credit first; on failure `v` is unchanged.
pub fn move_balance(v: &mut Vec<u64>, from: usize, to: usize, amt: u64, short: StockError) -> (r:
    Result<(), StockError>)
    ensures
        checked_move(old(v)@, from as int, to as int, amt as nat, short) is Ok ==> r is Ok
            && final(v)@ == checked_move(old(v)@, from as int, to as int, amt as nat, short)->Ok_0,
        checked_move(old(v)@, from as int, to as int, amt as nat, short) is Err ==> r == Err::<
            (),
            StockError,
        >(checked_move(old(v)@, from as int, to as int, amt as nat, short)->Err_0) && final(v)@
            == old(v)@,
{
    if from >= v.len() || to >= v.len() {
        return Err(StockError::NotFound);
    }
    if v[from] < amt {
        return Err(short);
    }
    if from != to {
        if v[to] > u64::MAX - amt {
            return Err(StockError::ArithmeticOverflow);
        }
        let a = v[from] - amt;
        v.set(from, a);
        let b = v[to] + amt;
        v.set(to, b);
    }
    Ok(())
}

/// Whether `amt` can move from `from` to `to` in `v`, and if not, why.
pub fn check_move(v: &Vec<u64>, from: usize, to: usize, amt: u64, short: StockError) -> (r: Result<(), StockError>)
    ensures
        r is Ok <==> checked_move(v@, from as int, to as int, amt as nat, short) is Ok,
        r is Err ==> r == Err::<(), StockError>(checked_move(v@, from as int, to as int, amt as nat, short)->Err_0),
{
    if from >= v.len() || to >= v.len() {
        return Err(StockError::NotFound);
    }
    if v[from] < amt {
        return Err(short);
    }
    if from != to && v[to] > u64::MAX - amt {
        return Err(StockError::ArithmeticOverflow);
    }
    Ok(())
}

/// A tradable stock. Only `current_price`, a marker of the last trade, may
/// change after creation; matching never reads it.
#[derive(Debug)]
pub struct Stock {
    pub name: String,
    pub symbol: String,
    pub total_supply: u64,
    pub current_price: u64,
    pub owner: ParticipantId,
}

/// Balances of every participant: funds in the smallest currency unit, and for
/// each stock the units each participant holds.
pub struct Ledger {
    /// `funds[p]` is the funds of participant `p`.
    pub funds: Vec<u64>,
    /// `positions[k][p]` is the units of stock `k` that participant `p` holds.
    pub positions: Vec<Vec<u64>>,
    /// `stocks[k]` describes stock `k`.
    pub stocks: Vec<Stock>,
}

impl Ledger {
    /// One row of positions per stock, one entry per participant in each row.
    pub open spec fn wf(&self) -> bool {
        &&& self.positions.len() == self.stocks.len()
        &&& forall|k: int| 0 <= k < self.positions.len() ==> #[trigger] self.positions[k]@.len() == self.funds@.len()
    }

    /// The positions, one sequence of balances per stock.
    pub open spec fn rows(&self) -> Seq<Seq<u64>> {
        self.positions@.map_values(|r: Vec<u64>| r@)
    }

    pub open spec fn is_participant(&self, p: int) -> bool {
        0 <= p < self.funds.len()
    }

    pub open spec fn is_stock(&self, k: int) -> bool {
        0 <= k < self.stocks.len()
    }

    /// Funds of `p`, zero for one that is not a participant.
    pub open spec fn funds_of(&self, p: int) -> u64 {
        if self.is_participant(p) { self.funds[p] } else { 0 }
    }

    /// Units of stock `k` held by `p`, zero where either does not exist.
    pub open spec fn position_of(&self, p: int, k: int) -> u64 {
        if self.is_stock(k) && 0 <= p < self.positions[k].len() { self.positions[k][p] } else { 0 }
    }

    /// Sum of all participants' funds.
    pub open spec fn total_funds(&self) -> int {
        total(self.funds@)
    }

    /// Sum of all participants' units of stock `k`.
    pub open spec fn total_position(&self, k: int) -> int {
        total(self.positions[k]@)
    }

    /// A ledger of the given participants, with these funds and no stocks.
    pub fn new(initial_funds: Vec<u64>) -> (r: Ledger)
        ensures
            r.wf(),
            r.funds@ == initial_funds@,
            r.stocks@.len() == 0,
    {
        Ledger { funds: initial_funds, positions: Vec::new(), stocks: Vec::new() }
    }

    /// Adds a participant with the given funds and no positions; returns its id.
    pub fn add_participant(&mut self, funds: u64) -> (r: ParticipantId)
        requires
            old(self).wf(),
            old(self).funds.len() < usize::MAX,
        ensures
            final(self).wf(),
            r == old(self).funds.len(),
            final(self).funds@ == old(self).funds@.push(funds),
            final(self).stocks@ == old(self).stocks@,
            final(self).rows() == old(self).rows().map_values(|r: Seq<u64>| r.push(0)),
    {
        let r = self.funds.len();
        self.funds.push(funds);
        let n = self.positions.len();
        let mut k: usize = 0;
        while k < n
            invariant
                0 <= k <= n,
                n == self.positions.len(),
                n == old(self).positions.len(),
                self.funds@ == old(self).funds@.push(funds),
                self.stocks@ == old(self).stocks@,
                forall|j: int| 0 <= j < k ==> #[trigger] self.positions[j]@ == old(self).positions[j]@.push(0),
                forall|j: int| k <= j < n ==> #[trigger] self.positions[j]@ == old(self).positions[j]@,
                forall|j: int| 0 <= j < n ==> #[trigger] old(self).positions[j]@.len() + 1 == self.funds@.len(),
            decreases n - k,
        {
            self.positions[k].push(0);
            k = k + 1;
        }
        proof {
            assert(self.rows() =~= old(self).rows().map_values(|r: Seq<u64>| r.push(0)));
            assert forall|j: int| 0 <= j < self.positions.len() implies #[trigger] self.positions[j]@.len() == self.funds@.len() by {
                assert(self.positions[j]@ == old(self).positions[j]@.push(0));
            }
        }
        r
    }

    /// Creates a stock whose whole supply is held by `owner`; returns its id.
    /// Fails with `NotFound` where `owner` is not a participant.
    pub fn create_stock(
        &mut self,
        owner: ParticipantId,
        name: String,
        symbol: String,
        total_supply: u64,
        current_price: u64,
    ) -> (r: Result<StockId, StockError>)
        requires
            old(self).wf(),
        ensures
            final(self).wf(),
            !old(self).is_participant(owner as int) ==> r == Err::<StockId, StockError>(StockError::NotFound)
                && *final(self) == *old(self),
            old(self).is_participant(owner as int) ==> {
                &&& r == Ok::<StockId, StockError>(old(self).stocks.len())
                &&& final(self).funds@ == old(self).funds@
                &&& final(self).stocks.len() == old(self).stocks.len() + 1
                &&& final(self).rows() == old(self).rows().push(Seq::new(old(self).funds.len() as nat, |p: int| if p == owner { total_supply } else { 0u64 }))
                &&& final(self).stocks@.last().owner == owner
                &&& final(self).stocks@.last().total_supply == total_supply
                &&& final(self).stocks@.last().current_price == current_price
                &&& final(self).stocks@.last().name@ == name@
                &&& final(self).stocks@.last().symbol@ == symbol@
            },
    {
        if owner >= self.funds.len() {
            return Err(StockError::NotFound);
        }
        let n = self.funds.len();
        let mut row: Vec<u64> = Vec::new();
        let mut p: usize = 0;
        while p < n
            invariant
                0 <= p <= n,
                row@ == Seq::new(p as nat, |j: int| if j == owner { total_supply } else { 0u64 }),
            decreases n - p,
        {
            if p == owner {
                row.push(total_supply);
            } else {
                row.push(0);
            }
            proof {
                assert(row@ =~= Seq::new((p + 1) as nat, |j: int| if j == owner { total_supply } else { 0u64 }));
            }
            p = p + 1;
        }
        let id = self.stocks.len();
        self.positions.push(row);
        self.stocks.push(Stock { name, symbol, total_supply, current_price, owner });
        proof {
            assert(self.rows() =~= old(self).rows().push(row@));
        }
        Ok(id)
    }

    /// Funds of `p`; zero where `p` is not a participant.
    pub fn funds_balance(&self, p: ParticipantId) -> (r: u64)
        requires
            self.wf(),
        ensures
            r == self.funds_of(p as int),
    {
        if p < self.funds.len() { self.funds[p] } else { 0 }
    }

    /// Units of stock `k` held by `p`; zero where either does not exist.
    pub fn position(&self, p: ParticipantId, k: StockId) -> (r: u64)
        requires
            self.wf(),
        ensures
            r == self.position_of(p as int, k as int),
    {
        if k < self.positions.len() && p < self.positions[k].len() {
            self.positions[k][p]
        } else {
            0
        }
    }

    /// Moves `amount` funds from `from` to `to`, or changes nothing and fails:
    /// `NotFound` for an unknown participant, `InsufficientFunds` where `from`
    /// holds less than `amount`, `ArithmeticOverflow` where the credit overflows.
    pub fn transfer_funds(&mut self, from: ParticipantId, to: ParticipantId, amount: u64) -> (r: Result<(), StockError>)
        requires
            old(self).wf(),
        ensures
            final(self).wf(),
            final(self).rows() == old(self).rows(),
            final(self).stocks@ == old(self).stocks@,
            checked_move(old(self).funds@, from as int, to as int, amount as nat, StockError::InsufficientFunds) matches Ok(s)
                ==> r is Ok && final(self).funds@ == s,
            checked_move(old(self).funds@, from as int, to as int, amount as nat, StockError::InsufficientFunds) matches Err(e)
                ==> r == Err::<(), StockError>(e) && final(self).funds@ == old(self).funds@,
            final(self).total_funds() == old(self).total_funds(),
    {
        let r = move_balance(&mut self.funds, from, to, amount, StockError::InsufficientFunds);
        proof {
            if r is Ok {
                lemma_move_conserves(old(self).funds@, from as int, to as int, amount as nat, StockError::InsufficientFunds);
            }
        }
        r
    }

    /// Moves `quantity` units of stock `k` from `from` to `to`, or changes
    /// nothing and fails: `NotFound` for an unknown stock or participant,
    /// `InsufficientStockBalance` where `from` holds less than `quantity`,
    /// `ArithmeticOverflow` where the credit overflows.
    pub fn transfer_position(&mut self, from: ParticipantId, to: ParticipantId, k: StockId, quantity: u64) -> (r: Result<(), StockError>)
        requires
            old(self).wf(),
        ensures
            final(self).wf(),
            final(self).funds@ == old(self).funds@,
            final(self).stocks@ == old(self).stocks@,
            !old(self).is_stock(k as int) ==> r == Err::<(), StockError>(StockError::NotFound) && final(self).rows() == old(self).rows(),
            old(self).is_stock(k as int) ==> {
                &&& checked_move(old(self).positions[k as int]@, from as int, to as int, quantity as nat, StockError::InsufficientStockBalance) matches Ok(s)
                    ==> r is Ok && final(self).rows() == old(self).rows().update(k as int, s)
                &&& checked_move(old(self).positions[k as int]@, from as int, to as int, quantity as nat, StockError::InsufficientStockBalance) matches Err(e)
                    ==> r == Err::<(), StockError>(e) && final(self).rows() == old(self).rows()
                &&& final(self).total_position(k as int) == old(self).total_position(k as int)
            },
    {
        if k >= self.positions.len() {
            return Err(StockError::NotFound);
        }
        let r = move_balance(&mut self.positions[k], from, to, quantity, StockError::InsufficientStockBalance);
        proof {
            let s = checked_move(old(self).positions[k as int]@, from as int, to as int, quantity as nat, StockError::InsufficientStockBalance);
            if r is Ok {
                lemma_move_conserves(old(self).positions[k as int]@, from as int, to as int, quantity as nat, StockError::InsufficientStockBalance);
                assert(self.rows() =~= old(self).rows().update(k as int, s->Ok_0));
            } else {
                assert(self.rows() =~= old(self).rows());
            }
            assert forall|j: int| 0 <= j < self.positions.len() implies #[trigger] self.positions[j]@.len() == self.funds@.len() by {
                if j != k {
                    assert(self.positions[j]@ == old(self).positions[j]@);
                }
            }
        }
        r
    }
}

} // verus!
