use vstd::prelude::*;

use crate::assoc::{
    has_quorum, insert_id, keys_unique, lemma_map_of_all, lemma_map_of_index, lemma_map_of_push,
    lemma_map_of_update, map_of, quorum,
};
use crate::membership::{elders_of, Elders, Membership};
use crate::node::{build_msg, is_wire_copy, Action};
use crate::Id;

verus! {

/// Identity of a DBC: the inputs of the transaction that produced it, and its
/// position among that transaction's outputs.
#[derive(Debug, PartialEq, Eq, PartialOrd, Ord, Hash)]
pub struct DbcId {
    pub inputs: Vec<Dbc>,
    pub output_index: u64,
}

#[derive(Debug, PartialEq, Eq, PartialOrd, Ord, Hash)]
pub struct Tx {
    pub inputs: Vec<Dbc>,
    pub outputs: Vec<u64>,
}

#[derive(Debug, PartialEq, Eq, PartialOrd, Ord, Hash)]
pub struct Dbc {
    pub output_index: u64,
    pub tx: Tx,
}

/// A request to the elders.
#[derive(Debug, PartialEq, Eq, PartialOrd, Ord, Hash)]
pub enum Msg {
    /// Witness and commit this transaction.
    ReqReissue(Tx),
}

impl Clone for Msg {
    fn clone(&self) -> (r: Self)
        ensures
            r@ == self@,
    {
        match self {
            Msg::ReqReissue(tx) => Msg::ReqReissue(copy_tx(tx)),
        }
    }
}

impl View for Msg {
    type V = TxV;

    open spec fn view(&self) -> TxV {
        match self {
            Msg::ReqReissue(tx) => tx@,
        }
    }
}

/// Value model of a transaction.
pub struct TxV {
    pub inputs: Seq<DbcV>,
    pub outputs: Seq<u64>,
}

/// Value model of a DBC.
pub struct DbcV {
    pub output_index: u64,
    pub tx: TxV,
}

/// Value model of a DBC identity.
pub struct DbcIdV {
    pub inputs: Seq<DbcV>,
    pub output_index: u64,
}

pub open spec fn tx_view(tx: Tx) -> TxV
    decreases tx,
{
    TxV { inputs: dbcs_view(tx.inputs@), outputs: tx.outputs@ }
}

pub open spec fn dbcs_view(s: Seq<Dbc>) -> Seq<DbcV>
    decreases s,
{
    if s.len() == 0 {
        Seq::empty()
    } else {
        dbcs_view(s.drop_last()).push(dbc_view(s.last()))
    }
}

pub open spec fn dbc_view(d: Dbc) -> DbcV
    decreases d,
{
    DbcV { output_index: d.output_index, tx: tx_view(d.tx) }
}


impl View for Tx {
    type V = TxV;

    open spec fn view(&self) -> TxV {
        tx_view(*self)
    }
}

impl View for Dbc {
    type V = DbcV;

    open spec fn view(&self) -> DbcV {
        dbc_view(*self)
    }
}

impl View for DbcId {
    type V = DbcIdV;

    open spec fn view(&self) -> DbcIdV {
        DbcIdV { inputs: dbcs_view(self.inputs@), output_index: self.output_index }
    }
}

pub proof fn lemma_dbcs_view(s: Seq<Dbc>)
    ensures
        dbcs_view(s).len() == s.len(),
        forall|i: int| 0 <= i < s.len() ==> #[trigger] dbcs_view(s)[i] == dbc_view(s[i]),
    decreases s.len(),
{
    if s.len() > 0 {
        lemma_dbcs_view(s.drop_last());
    }
}

/// Copies a list of DBCs, value for value.
pub fn copy_dbcs(v: &Vec<Dbc>) -> (r: Vec<Dbc>)
    ensures
        dbcs_view(r@) == dbcs_view(v@),
    decreases v,
{
    let mut r: Vec<Dbc> = Vec::new();
    let mut i: usize = 0;
    while i < v.len()
        invariant
            i <= v.len(),
            dbcs_view(r@) == dbcs_view(v@.subrange(0, i as int)),
        decreases v.len() - i,
    {
        assert(decreases_to!(v => v[i as int]));
        let d = copy_dbc(&v[i]);
        proof {
            assert(v@.subrange(0, i + 1).drop_last() =~= v@.subrange(0, i as int));
        }
        let ghost r0 = r@;
        r.push(d);
        proof {
            assert(r@.drop_last() =~= r0);
        }
        i = i + 1;
    }
    proof {
        assert(v@.subrange(0, v.len() as int) =~= v@);
    }
    r
}

pub fn copy_tx(tx: &Tx) -> (r: Tx)
    ensures
        r@ == tx@,
    decreases tx,
{
    let inputs = copy_dbcs(&tx.inputs);
    let outputs = tx.outputs.clone();
    proof {
        assert(outputs@ =~= tx.outputs@);
    }
    Tx { inputs, outputs }
}

pub fn copy_dbc(d: &Dbc) -> (r: Dbc)
    ensures
        r@ == d@,
    decreases d,
{
    Dbc { output_index: d.output_index, tx: copy_tx(&d.tx) }
}

impl Clone for DbcId {
    fn clone(&self) -> (r: Self)
        ensures
            r@ == self@,
    {
        DbcId { inputs: copy_dbcs(&self.inputs), output_index: self.output_index }
    }
}

impl Clone for Tx {
    fn clone(&self) -> (r: Self)
        ensures
            r@ == self@,
    {
        copy_tx(self)
    }
}

impl Clone for Dbc {
    fn clone(&self) -> (r: Self)
        ensures
            r@ == self@,
    {
        copy_dbc(self)
    }
}

/// Two lists of integers hold the same values.
pub fn u64s_eq(a: &Vec<u64>, b: &Vec<u64>) -> (r: bool)
    ensures
        r == (a@ == b@),
{
    if a.len() != b.len() {
        return false;
    }
    let mut i: usize = 0;
    while i < a.len()
        invariant
            i <= a.len(),
            a.len() == b.len(),
            forall|j: int| 0 <= j < i ==> a@[j] == b@[j],
        decreases a.len() - i,
    {
        if a[i] != b[i] {
            return false;
        }
        i = i + 1;
    }
    proof {
        assert(a@ =~= b@);
    }
    true
}

/// Two lists of DBCs hold the same values.
pub fn dbcs_eq(a: &Vec<Dbc>, b: &Vec<Dbc>) -> (r: bool)
    ensures
        r == (dbcs_view(a@) == dbcs_view(b@)),
    decreases a,
{
    proof {
        lemma_dbcs_view(a@);
        lemma_dbcs_view(b@);
    }
    if a.len() != b.len() {
        return false;
    }
    let mut i: usize = 0;
    while i < a.len()
        invariant
            i <= a.len(),
            a.len() == b.len(),
            dbcs_view(a@).len() == a.len(),
            dbcs_view(b@).len() == b.len(),
            forall|j: int| 0 <= j < a.len() ==> #[trigger] dbcs_view(a@)[j] == dbc_view(a@[j]),
            forall|j: int| 0 <= j < b.len() ==> #[trigger] dbcs_view(b@)[j] == dbc_view(b@[j]),
            forall|j: int| 0 <= j < i ==> dbc_view(#[trigger] a@[j]) == dbc_view(b@[j]),
        decreases a.len() - i,
    {
        assert(decreases_to!(a => a[i as int]));
        if !dbc_eq(&a[i], &b[i]) {
            assert(dbcs_view(a@)[i as int] != dbcs_view(b@)[i as int]);
            return false;
        }
        i = i + 1;
    }
    proof {
        assert(dbcs_view(a@) =~= dbcs_view(b@));
    }
    true
}

/// Two transactions are the same value.
pub fn tx_eq(a: &Tx, b: &Tx) -> (r: bool)
    ensures
        r == (a@ == b@),
    decreases a,
{
    dbcs_eq(&a.inputs, &b.inputs) && u64s_eq(&a.outputs, &b.outputs)
}

/// Two DBCs are the same value.
pub fn dbc_eq(a: &Dbc, b: &Dbc) -> (r: bool)
    ensures
        r == (a@ == b@),
    decreases a,
{
    a.output_index == b.output_index && tx_eq(&a.tx, &b.tx)
}

/// Two DBC identities are the same value.
pub fn dbc_id_eq(a: &DbcId, b: &DbcId) -> (r: bool)
    ensures
        r == (a@ == b@),
{
    a.output_index == b.output_index && dbcs_eq(&a.inputs, &b.inputs)
}

/// Sum of a sequence of amounts, as a mathematical integer.
pub open spec fn sum_of(s: Seq<u64>) -> int
    decreases s.len(),
{
    if s.len() == 0 {
        0
    } else {
        sum_of(s.drop_last()) + s.last()
    }
}

/// The amount a DBC carries: its output of its transaction.
pub open spec fn amount_of(d: DbcV) -> u64 {
    d.tx.outputs[d.output_index as int]
}

/// Every input of the transaction points at an existing output of its own transaction.
pub open spec fn input_indices_valid(tx: TxV) -> bool {
    forall|i: int|
        0 <= i < tx.inputs.len() ==> (#[trigger] tx.inputs[i]).output_index
            < tx.inputs[i].tx.outputs.len()
}

/// What the inputs of a transaction carry, in order.
pub open spec fn input_amounts(tx: TxV) -> Seq<u64> {
    tx.inputs.map_values(|d: DbcV| amount_of(d))
}

/// The inputs of the transaction carry exactly what its outputs hand out.
pub open spec fn sums_match(tx: TxV) -> bool {
    input_indices_valid(tx) && sum_of(input_amounts(tx)) == sum_of(tx.outputs)
}

/// A DBC names an existing output of a balanced transaction.
pub open spec fn dbc_valid(d: DbcV) -> bool {
    d.output_index < d.tx.outputs.len() && sums_match(d.tx)
}

/// The identity of a DBC.
pub open spec fn dbc_id_of(d: DbcV) -> DbcIdV {
    DbcIdV { inputs: d.tx.inputs, output_index: d.output_index }
}

pub open spec fn genesis_tx_spec() -> TxV {
    TxV { inputs: Seq::empty(), outputs: seq![100u64] }
}

/// The genesis DBC: the single output of 100 of a transaction without inputs.
pub open spec fn genesis_spec() -> DbcV {
    DbcV { output_index: 0, tx: genesis_tx_spec() }
}

/// The amount held by the genesis DBC.
pub const GENESIS_AMOUNT: u64 = 100;

proof fn lemma_sum_bound(s: Seq<u64>)
    ensures
        0 <= sum_of(s) <= s.len() * 0xffff_ffff_ffff_ffffu64,
    decreases s.len(),
{
    if s.len() > 0 {
        lemma_sum_bound(s.drop_last());
    }
}

/// Sum of a list of amounts, in a type wide enough for any list.
fn sum_wide(v: &Vec<u64>) -> (r: u128)
    ensures
        r == sum_of(v@),
{
    let mut acc: u128 = 0;
    let mut i: usize = 0;
    while i < v.len()
        invariant
            i <= v.len(),
            acc == sum_of(v@.subrange(0, i as int)),
        decreases v.len() - i,
    {
        proof {
            assert(v@.subrange(0, i + 1).drop_last() =~= v@.subrange(0, i as int));
            lemma_sum_bound(v@.subrange(0, i as int));
        }
        acc = acc + v[i] as u128;
        i = i + 1;
    }
    proof {
        assert(v@.subrange(0, v.len() as int) =~= v@);
    }
    acc
}

impl Tx {
    /// The inputs carry exactly what the outputs hand out. An input that names
    /// no output of its own transaction carries no amount, and the sums cannot match.
    pub fn verify_sums(&self) -> (r: bool)
        ensures
            r == sums_match(self@),
    {
        proof {
            lemma_dbcs_view(self.inputs@);
            assert(self@.inputs == dbcs_view(self.inputs@));
        }
        let mut amounts: Vec<u64> = Vec::new();
        let mut i: usize = 0;
        while i < self.inputs.len()
            invariant
                i <= self.inputs.len(),
                amounts@.len() == i,
                self@.inputs.len() == self.inputs.len(),
                forall|j: int|
                    0 <= j < self.inputs.len() ==> #[trigger] self@.inputs[j] == dbc_view(
                        self.inputs@[j],
                    ),
                forall|j: int| 0 <= j < i ==> #[trigger] amounts@[j] == amount_of(self@.inputs[j]),
                forall|j: int| 0 <= j < i ==> (#[trigger] self@.inputs[j]).output_index
                    < self@.inputs[j].tx.outputs.len(),
            decreases self.inputs.len() - i,
        {
            let d = &self.inputs[i];
            assert(self@.inputs[i as int] == d@);
            if d.output_index >= d.tx.outputs.len() as u64 {
                return false;
            }
            amounts.push(d.amount());
            i = i + 1;
        }
        proof {
            assert(amounts@ =~= input_amounts(self@));
        }
        sum_wide(&amounts) == sum_wide(&self.outputs)
    }

    /// Each output of this transaction as a DBC identity with its amount, in order.
    pub fn output_dbc_ids_and_amounts(&self) -> (r: Vec<(DbcId, u64)>)
        ensures
            r.len() == self.outputs.len(),
            forall|i: int|
                0 <= i < r.len() ==> (#[trigger] r@[i]).0@ == (DbcIdV {
                    inputs: self@.inputs,
                    output_index: i as u64,
                }) && r@[i].1 == self.outputs@[i],
    {
        let mut r: Vec<(DbcId, u64)> = Vec::new();
        let mut i: usize = 0;
        while i < self.outputs.len()
            invariant
                i <= self.outputs.len(),
                r.len() == i,
                forall|j: int|
                    0 <= j < i ==> (#[trigger] r@[j]).0@ == (DbcIdV {
                        inputs: self@.inputs,
                        output_index: j as u64,
                    }) && r@[j].1 == self.outputs@[j],
            decreases self.outputs.len() - i,
        {
            let id = DbcId { inputs: copy_dbcs(&self.inputs), output_index: i as u64 };
            r.push((id, self.outputs[i]));
            i = i + 1;
        }
        r
    }

    /// Each output of this transaction as a DBC, in order.
    pub fn output_dbcs(&self) -> (r: Vec<Dbc>)
        ensures
            r.len() == self.outputs.len(),
            forall|i: int|
                0 <= i < r.len() ==> (#[trigger] r@[i])@ == (DbcV {
                    output_index: i as u64,
                    tx: self@,
                }),
    {
        let mut r: Vec<Dbc> = Vec::new();
        let mut i: usize = 0;
        while i < self.outputs.len()
            invariant
                i <= self.outputs.len(),
                r.len() == i,
                forall|j: int|
                    0 <= j < i ==> (#[trigger] r@[j])@ == (DbcV {
                        output_index: j as u64,
                        tx: self@,
                    }),
            decreases self.outputs.len() - i,
        {
            r.push(Dbc { output_index: i as u64, tx: copy_tx(self) });
            i = i + 1;
        }
        r
    }
}

impl Dbc {
    /// The amount this DBC carries.
    pub fn amount(&self) -> (r: u64)
        requires
            self.output_index < self.tx.outputs.len(),
        ensures
            r == amount_of(self@),
    {
        self.tx.outputs[self.output_index as usize]
    }

    pub fn id(&self) -> (r: DbcId)
        ensures
            r@ == dbc_id_of(self@),
    {
        DbcId { inputs: copy_dbcs(&self.tx.inputs), output_index: self.output_index }
    }

    pub fn verify(&self) -> (r: bool)
        ensures
            r == dbc_valid(self@),
    {
        self.output_index < self.tx.outputs.len() as u64 && self.tx.verify_sums()
    }
}

pub fn genesis_dbc() -> (r: Dbc)
    ensures
        r@ == genesis_spec(),
{
    let r = Dbc { output_index: 0, tx: Tx { inputs: Vec::new(), outputs: vec![GENESIS_AMOUNT] } };
    proof {
        assert(r@.tx.inputs =~= Seq::<DbcV>::empty());
        assert(r@.tx.outputs =~= seq![100u64]);
    }
    r
}

/// The ledger of a node: which transaction spent each DBC, and the transactions
/// waiting for a quorum of elders.
#[derive(Clone, Debug, PartialEq, Eq, PartialOrd, Ord, Hash)]
pub struct Ledger {
    /// Each spent DBC with the transaction that spent it, once per DBC.
    pub commitments: Vec<(DbcId, Tx)>,
    /// Each pending transaction with the ids that witnessed it, once per transaction.
    pub pending_commitments: Vec<(Tx, Vec<Id>)>,
}

pub open spec fn commit_view(s: Seq<(DbcId, Tx)>) -> Seq<(DbcIdV, TxV)> {
    s.map_values(|p: (DbcId, Tx)| (p.0@, p.1@))
}

pub open spec fn pending_view(s: Seq<(Tx, Vec<Id>)>) -> Seq<(TxV, Set<Id>)> {
    s.map_values(|p: (Tx, Vec<Id>)| (p.0@, p.1@.to_set()))
}

/// Witnesses recorded for a pending transaction; none where it is not pending.
pub open spec fn tx_witnesses(pm: Map<TxV, Set<Id>>, tx: TxV) -> Set<Id> {
    if pm.contains_key(tx) {
        pm[tx]
    } else {
        Set::empty()
    }
}

/// `tx` may be witnessed against the commitments `cm` and pending transactions `pm`.
pub open spec fn valid_tx(cm: Map<DbcIdV, TxV>, pm: Map<TxV, Set<Id>>, tx: TxV) -> bool {
    &&& sums_match(tx)
    &&& forall|i: int|
        0 <= i < tx.inputs.len() ==> dbc_valid(#[trigger] tx.inputs[i]) || tx.inputs[i]
            == genesis_spec()
    &&& forall|i: int, j: int|
        0 <= i < tx.inputs.len() && 0 <= j < tx.inputs[i].tx.inputs.len() ==> {
            let parent = dbc_id_of(#[trigger] tx.inputs[i].tx.inputs[j]);
            cm.contains_key(parent) && cm[parent] == tx.inputs[i].tx
        }
    &&& forall|i: int| 0 <= i < tx.inputs.len() ==> !cm.contains_key(dbc_id_of(#[trigger] tx.inputs[i]))
    &&& forall|i: int, p: TxV|
        0 <= i < tx.inputs.len() && #[trigger] pm.contains_key(p) && p != tx ==> !consumes(
            p,
            dbc_id_of(#[trigger] tx.inputs[i]),
        )
}

/// The transaction `tx` consumes the DBC identified by `k`.
pub open spec fn consumes(tx: TxV, k: DbcIdV) -> bool {
    exists|i: int| 0 <= i < tx.inputs.len() && dbc_id_of(#[trigger] tx.inputs[i]) == k
}

/// Pending transactions whose witnesses hold a strict majority of `elders`.
pub open spec fn ready_txs(pm: Map<TxV, Set<Id>>, elders: Seq<Id>) -> Set<TxV> {
    pm.dom().filter(|t: TxV| has_quorum(pm[t], elders))
}

/// What a transaction's outputs carry that no commitment in `cm` has spent,
/// over its first `n` outputs.
pub open spec fn unspent_of(tx: TxV, n: int, cm: Map<DbcIdV, TxV>) -> int
    decreases n,
{
    if n <= 0 {
        0
    } else {
        unspent_of(tx, n - 1, cm) + if cm.contains_key(
            DbcIdV { inputs: tx.inputs, output_index: (n - 1) as u64 },
        ) {
            0
        } else {
            tx.outputs[n - 1] as int
        }
    }
}

/// Unspent amounts of the distinct committed transactions among the first `n`
/// commitments of `cs`, the genesis transaction left out.
pub open spec fn committed_unspent(cs: Seq<(DbcIdV, TxV)>, n: int, cm: Map<DbcIdV, TxV>) -> int
    decreases n,
{
    if n <= 0 {
        0
    } else {
        committed_unspent(cs, n - 1, cm) + if first_of_tx(cs, n - 1) && cs[n - 1].1
            != genesis_tx_spec() {
            unspent_of(cs[n - 1].1, cs[n - 1].1.outputs.len() as int, cm)
        } else {
            0
        }
    }
}

/// Entry `i` is the first commitment naming its transaction.
pub open spec fn first_of_tx(cs: Seq<(DbcIdV, TxV)>, i: int) -> bool {
    forall|j: int| 0 <= j < i ==> (#[trigger] cs[j]).1 != cs[i].1
}

impl Ledger {
    pub open spec fn commit_map(&self) -> Map<DbcIdV, TxV> {
        map_of(commit_view(self.commitments@))
    }

    pub open spec fn pending_map(&self) -> Map<TxV, Set<Id>> {
        map_of(pending_view(self.pending_commitments@))
    }

    pub open spec fn wf(&self) -> bool {
        &&& keys_unique(commit_view(self.commitments@))
        &&& keys_unique(pending_view(self.pending_commitments@))
    }

    /// Unspent amounts of the genesis transaction and of every committed one.
    pub open spec fn unspent_total(&self) -> int {
        unspent_of(genesis_tx_spec(), 1, self.commit_map()) + committed_unspent(
            commit_view(self.commitments@),
            self.commitments@.len() as int,
            self.commit_map(),
        )
    }

    /// An empty ledger. The elders are not needed to start one.
    pub fn new(elders: &Vec<Id>) -> (r: Ledger)
        ensures
            r.wf(),
            r.commit_map() == Map::<DbcIdV, TxV>::empty(),
            r.pending_map() == Map::<TxV, Set<Id>>::empty(),
            r.commitments@.len() == 0,
            r.unspent_total() == GENESIS_AMOUNT,
    {
        let r = Ledger { commitments: Vec::new(), pending_commitments: Vec::new() };
        proof {
            assert(r.commit_map() =~= Map::<DbcIdV, TxV>::empty());
            assert(r.pending_map() =~= Map::<TxV, Set<Id>>::empty());
            assert(unspent_of(genesis_tx_spec(), 0, r.commit_map()) == 0);
        }
        r
    }

    /// Index of the commitment of the DBC `id`.
    fn find_commitment(&self, id: &DbcId) -> (r: Option<usize>)
        requires
            self.wf(),
        ensures
            match r {
                Some(k) => k < self.commitments.len() && self.commitments@[k as int].0@ == id@
                    && self.commit_map().contains_key(id@) && self.commit_map()[id@]
                    == self.commitments@[k as int].1@,
                None => !self.commit_map().contains_key(id@),
            },
    {
        let ghost cv = commit_view(self.commitments@);
        let mut k: usize = 0;
        while k < self.commitments.len()
            invariant
                k <= self.commitments.len(),
                cv == commit_view(self.commitments@),
                keys_unique(cv),
                forall|j: int| 0 <= j < k ==> (#[trigger] cv[j]).0 != id@,
            decreases self.commitments.len() - k,
        {
            if dbc_id_eq(&self.commitments[k].0, id) {
                proof {
                    lemma_map_of_index(cv, k as int);
                }
                return Some(k);
            }
            k = k + 1;
        }
        proof {
            lemma_map_of_all(cv);
        }
        None
    }

    /// Index of the pending entry of `tx`.
    fn find_pending(&self, tx: &Tx) -> (r: Option<usize>)
        requires
            self.wf(),
        ensures
            match r {
                Some(k) => k < self.pending_commitments.len() && self.pending_commitments@[k as int].0@
                    == tx@ && self.pending_map().contains_key(tx@) && self.pending_map()[tx@]
                    == self.pending_commitments@[k as int].1@.to_set(),
                None => !self.pending_map().contains_key(tx@),
            },
    {
        let ghost pv = pending_view(self.pending_commitments@);
        let mut k: usize = 0;
        while k < self.pending_commitments.len()
            invariant
                k <= self.pending_commitments.len(),
                pv == pending_view(self.pending_commitments@),
                keys_unique(pv),
                forall|j: int| 0 <= j < k ==> (#[trigger] pv[j]).0 != tx@,
            decreases self.pending_commitments.len() - k,
        {
            if tx_eq(&self.pending_commitments[k].0, tx) {
                proof {
                    lemma_map_of_index(pv, k as int);
                }
                return Some(k);
            }
            k = k + 1;
        }
        proof {
            lemma_map_of_all(pv);
        }
        None
    }
}

impl Ledger {
    /// Whether `tx` may be witnessed: its sums match, each input is a valid DBC or
    /// the genesis DBC, each input's parents were committed to the input's own
    /// transaction, no input is spent, and no other pending transaction holds one.
    pub fn validate_tx(&self, tx: &Tx) -> (r: bool)
        requires
            self.wf(),
        ensures
            r == valid_tx(self.commit_map(), self.pending_map(), tx@),
    {
        if !tx.verify_sums() {
            return false;
        }
        let genesis = genesis_dbc();
        let ghost cm = self.commit_map();
        let ghost pm = self.pending_map();
        let ghost pv = pending_view(self.pending_commitments@);
        proof {
            lemma_dbcs_view(tx.inputs@);
            lemma_map_of_all(pv);
        }
        let mut i: usize = 0;
        while i < tx.inputs.len()
            invariant
                self.wf(),
                cm == self.commit_map(),
                pm == self.pending_map(),
                pv == pending_view(self.pending_commitments@),
                pm == map_of(pv),
                forall|q: int| 0 <= q < pv.len() ==> pm.contains_key(#[trigger] pv[q].0),
                forall|p: TxV| #[trigger] pm.contains_key(p) ==> exists|q: int| 0 <= q < pv.len() && (#[trigger] pv[q]).0 == p,
                genesis@ == genesis_spec(),
                sums_match(tx@),
                i <= tx.inputs.len(),
                tx@.inputs.len() == tx.inputs.len(),
                forall|j: int| 0 <= j < tx.inputs.len() ==> #[trigger] tx@.inputs[j] == tx.inputs@[j]@,
                forall|j: int| 0 <= j < i ==> dbc_valid(#[trigger] tx@.inputs[j]) || tx@.inputs[j] == genesis_spec(),
                forall|j: int, k: int|
                    0 <= j < i && 0 <= k < tx@.inputs[j].tx.inputs.len() ==> {
                        let parent = dbc_id_of(#[trigger] tx@.inputs[j].tx.inputs[k]);
                        cm.contains_key(parent) && cm[parent] == tx@.inputs[j].tx
                    },
                forall|j: int| 0 <= j < i ==> !cm.contains_key(dbc_id_of(#[trigger] tx@.inputs[j])),
                forall|j: int, p: TxV|
                    0 <= j < i && #[trigger] pm.contains_key(p) && p != tx@ ==> !consumes(
                        p,
                        dbc_id_of(#[trigger] tx@.inputs[j]),
                    ),
            decreases tx.inputs.len() - i,
        {
            let d = &tx.inputs[i];
            if !(d.verify() || dbc_eq(d, &genesis)) {
                assert(!(dbc_valid(tx@.inputs[i as int]) || tx@.inputs[i as int] == genesis_spec()));
                return false;
            }
            proof {
                lemma_dbcs_view(d.tx.inputs@);
                assert(d@.tx.inputs == dbcs_view(d.tx.inputs@));
            }
            let mut k: usize = 0;
            while k < d.tx.inputs.len()
                invariant
                    self.wf(),
                    cm == self.commit_map(),
                    k <= d.tx.inputs.len(),
                    i < tx.inputs.len(),
                    tx@.inputs.len() == tx.inputs.len(),
                    d@ == tx@.inputs[i as int],
                    d@.tx.inputs.len() == d.tx.inputs.len(),
                    forall|kk: int| 0 <= kk < d.tx.inputs.len() ==> #[trigger] d@.tx.inputs[kk] == d.tx.inputs@[kk]@,
                    forall|kk: int|
                        0 <= kk < k ==> {
                            let parent = dbc_id_of(#[trigger] d@.tx.inputs[kk]);
                            cm.contains_key(parent) && cm[parent] == d@.tx
                        },
                decreases d.tx.inputs.len() - k,
            {
                let pid = d.tx.inputs[k].id();
                match self.find_commitment(&pid) {
                    None => {
                        assert(pid@ == dbc_id_of(tx@.inputs[i as int].tx.inputs[k as int]));
                        return false;
                    },
                    Some(c) => {
                        if !tx_eq(&self.commitments[c].1, &d.tx) {
                            assert(pid@ == dbc_id_of(tx@.inputs[i as int].tx.inputs[k as int]));
                            return false;
                        }
                    },
                }
                k = k + 1;
            }
            if self.find_commitment(&d.id()).is_some() {
                assert(cm.contains_key(dbc_id_of(tx@.inputs[i as int])));
                return false;
            }
            let did = d.id();
            let mut q: usize = 0;
            while q < self.pending_commitments.len()
                invariant
                    self.wf(),
                    pv == pending_view(self.pending_commitments@),
                    q <= self.pending_commitments.len(),
                    i < tx.inputs.len(),
                    tx@.inputs.len() == tx.inputs.len(),
                    pm == map_of(pv),
                    forall|qq: int| 0 <= qq < pv.len() ==> pm.contains_key(#[trigger] pv[qq].0),
                    d@ == tx@.inputs[i as int],
                    did@ == dbc_id_of(d@),
                    forall|qq: int| 0 <= qq < q && (#[trigger] pv[qq]).0 != tx@ ==> !consumes(pv[qq].0, dbc_id_of(d@)),
                decreases self.pending_commitments.len() - q,
            {
                let p = &self.pending_commitments[q].0;
                proof {
                    lemma_dbcs_view(p.inputs@);
                }
                if consumes_id(p, &did) && !tx_eq(p, tx) {
                    assert(pv[q as int].0 == p@);
                    assert(pm.contains_key(pv[q as int].0));
                    assert(consumes(pv[q as int].0, dbc_id_of(tx@.inputs[i as int])));
                    return false;
                }
                q = q + 1;
            }
            proof {
                assert forall|p: TxV| #[trigger] pm.contains_key(p) && p != tx@ implies !consumes(p, dbc_id_of(d@)) by {
                    let qq = choose|qq: int| 0 <= qq < pv.len() && (#[trigger] pv[qq]).0 == p;
                }
            }
            i = i + 1;
        }
        true
    }
}

/// The commitments once every input of `t` is recorded as spent by `t`.
pub open spec fn commit_tx_spec(cm: Map<DbcIdV, TxV>, t: TxV) -> Map<DbcIdV, TxV> {
    Map::new(|k: DbcIdV| cm.contains_key(k) || consumes(t, k), |k: DbcIdV| if consumes(t, k) { t } else { cm[k] })
}

/// The commitments once each of `ts` is committed, in order.
pub open spec fn commit_all(cm: Map<DbcIdV, TxV>, ts: Seq<TxV>) -> Map<DbcIdV, TxV>
    decreases ts.len(),
{
    if ts.len() == 0 {
        cm
    } else {
        commit_tx_spec(commit_all(cm, ts.drop_last()), ts.last())
    }
}

impl Ledger {
    /// Records `tx` as the spender of its DBC `key`.
    fn commit(&mut self, key: DbcId, tx: Tx)
        requires
            old(self).wf(),
        ensures
            final(self).wf(),
            final(self).commit_map() == old(self).commit_map().insert(key@, tx@),
            final(self).pending_commitments == old(self).pending_commitments,
    {
        let ghost cv = commit_view(self.commitments@);
        match self.find_commitment(&key) {
            Some(k) => {
                self.commitments.set(k, (key, tx));
                proof {
                    assert(commit_view(self.commitments@) =~= cv.update(k as int, (cv[k as int].0, tx@)));
                    lemma_map_of_update(cv, k as int, tx@);
                }
            },
            None => {
                let ghost kv = key@;
                let ghost tv = tx@;
                self.commitments.push((key, tx));
                proof {
                    assert(commit_view(self.commitments@) =~= cv.push((kv, tv)));
                    lemma_map_of_push(cv, kv, tv);
                }
            },
        }
    }

    /// Records every input of `t` as spent by `t`.
    fn commit_tx(&mut self, t: &Tx)
        requires
            old(self).wf(),
        ensures
            final(self).wf(),
            final(self).commit_map() == commit_tx_spec(old(self).commit_map(), t@),
            final(self).pending_commitments == old(self).pending_commitments,
    {
        let ghost cm0 = self.commit_map();
        proof {
            lemma_dbcs_view(t.inputs@);
            assert(commit_tx_spec(cm0, TxV { inputs: t@.inputs.subrange(0, 0), outputs: t@.outputs }) =~= cm0);
        }
        let mut i: usize = 0;
        while i < t.inputs.len()
            invariant
                self.wf(),
                i <= t.inputs.len(),
                self.pending_commitments == old(self).pending_commitments,
                t@.inputs.len() == t.inputs.len(),
                forall|j: int| 0 <= j < t.inputs.len() ==> #[trigger] t@.inputs[j] == t.inputs@[j]@,
                self.commit_map() == Map::new(
                    |k: DbcIdV| cm0.contains_key(k) || exists|j: int| 0 <= j < i && dbc_id_of(#[trigger] t@.inputs[j]) == k,
                    |k: DbcIdV| if exists|j: int| 0 <= j < i && dbc_id_of(#[trigger] t@.inputs[j]) == k { t@ } else { cm0[k] },
                ),
            decreases t.inputs.len() - i,
        {
            let key = t.inputs[i].id();
            let ghost before = self.commit_map();
            self.commit(key, copy_tx(t));
            proof {
                assert(key@ == dbc_id_of(t@.inputs[i as int]));
                assert(self.commit_map() =~= Map::new(
                    |k: DbcIdV| cm0.contains_key(k) || exists|j: int| 0 <= j < i + 1 && dbc_id_of(#[trigger] t@.inputs[j]) == k,
                    |k: DbcIdV| if exists|j: int| 0 <= j < i + 1 && dbc_id_of(#[trigger] t@.inputs[j]) == k { t@ } else { cm0[k] },
                ));
            }
            i = i + 1;
        }
        proof {
            assert(self.commit_map() =~= commit_tx_spec(cm0, t@));
        }
    }

    /// Witnesses `tx` for this node `id` and for `witness`, where it is valid.
    /// True when it was valid and not pending before.
    pub fn log_tx_share(&mut self, id: Id, tx: Tx, witness: Id) -> (r: bool)
        requires
            old(self).wf(),
        ensures
            final(self).wf(),
            final(self).commitments == old(self).commitments,
            !valid_tx(old(self).commit_map(), old(self).pending_map(), tx@) ==> {
                &&& final(self).pending_commitments == old(self).pending_commitments
                &&& !r
            },
            valid_tx(old(self).commit_map(), old(self).pending_map(), tx@) ==> {
                &&& final(self).pending_map() == old(self).pending_map().insert(
                    tx@,
                    tx_witnesses(old(self).pending_map(), tx@).insert(witness).insert(id),
                )
                &&& r == !old(self).pending_map().contains_key(tx@)
            },
            spends_consistent(old(self).commit_map(), old(self).pending_map()) ==> spends_consistent(
                final(self).commit_map(),
                final(self).pending_map(),
            ),
    {
        proof {
            lemma_log_consistent(*old(self), tx@, witness, id);
        }
        if !self.validate_tx(&tx) {
            return false;
        }
        let ghost pv = pending_view(self.pending_commitments@);
        let ghost tv = tx@;
        match self.find_pending(&tx) {
            Some(k) => {
                let mut ws = self.pending_commitments[k].1.clone();
                proof {
                    assert(ws@ =~= self.pending_commitments@[k as int].1@);
                }
                insert_id(&mut ws, witness);
                insert_id(&mut ws, id);
                let ghost wv = ws@.to_set();
                self.pending_commitments.set(k, (tx, ws));
                proof {
                    assert(pending_view(self.pending_commitments@) =~= pv.update(k as int, (pv[k as int].0, wv)));
                    lemma_map_of_update(pv, k as int, wv);
                }
                false
            },
            None => {
                let mut ws: Vec<Id> = Vec::new();
                proof {
                    assert(ws@.to_set() =~= Set::<Id>::empty());
                }
                insert_id(&mut ws, witness);
                insert_id(&mut ws, id);
                let ghost wv = ws@.to_set();
                self.pending_commitments.push((tx, ws));
                proof {
                    assert(pending_view(self.pending_commitments@) =~= pv.push((tv, wv)));
                    lemma_map_of_push(pv, tv, wv);
                }
                true
            },
        }
    }
}

impl Ledger {
    /// Commits every pending transaction whose witnesses hold a strict majority of
    /// the elders of `membership`: each of its inputs is recorded as spent by it,
    /// and it leaves the pending set.
    pub fn process_completed_commitments(&mut self, membership: &Membership)
        requires
            old(self).wf(),
        ensures
            final(self).wf(),
            final(self).pending_map() == old(self).pending_map().remove_keys(
                ready_txs(old(self).pending_map(), elders_of(membership.stable_set.members@, membership.elder_count)),
            ),
            exists|rs: Seq<TxV>|
                {
                    &&& rs.no_duplicates()
                    &&& rs.to_set() == ready_txs(
                        old(self).pending_map(),
                        elders_of(membership.stable_set.members@, membership.elder_count),
                    )
                    &&& final(self).commit_map() == commit_all(old(self).commit_map(), rs)
                },
            spends_consistent(old(self).commit_map(), old(self).pending_map()) ==> spends_consistent(
                final(self).commit_map(),
                final(self).pending_map(),
            ),
    {
        let elders = membership.elders();
        let ghost pv = pending_view(self.pending_commitments@);
        let ghost pm = self.pending_map();
        let ghost cm0 = self.commit_map();
        let (ready, kept) = split_ready_txs(&self.pending_commitments, &elders);
        let ghost rs = ready@.map_values(|t: Tx| t@);
        let ghost rd = ready_txs(pm, elders@);
        self.pending_commitments = kept;
        let mut a: usize = 0;
        proof {
            assert(rs.subrange(0, 0) =~= Seq::<TxV>::empty());
        }
        while a < ready.len()
            invariant
                self.wf(),
                a <= ready.len(),
                rs == ready@.map_values(|t: Tx| t@),
                self.pending_map() == pm.remove_keys(rd),
                self.commit_map() == commit_all(cm0, rs.subrange(0, a as int)),
            decreases ready.len() - a,
        {
            self.commit_tx(&ready[a]);
            proof {
                assert(rs.subrange(0, a + 1).drop_last() =~= rs.subrange(0, a as int));
            }
            a = a + 1;
        }
        proof {
            assert(rs.subrange(0, ready.len() as int) =~= rs);
            if spends_consistent(cm0, pm) {
                assert forall|i: int| 0 <= i < rs.len() implies pm.contains_key(#[trigger] rs[i]) by {
                    assert(rs.to_set().contains(rs[i]));
                }
                lemma_commit_all_consistent(cm0, pm, rs);
            }
        }
    }
}

/// Splits pending transactions into those whose witnesses hold a quorum of
/// `elders`, in order, and the entries that stay pending.
fn split_ready_txs(t: &Vec<(Tx, Vec<Id>)>, elders: &Vec<Id>) -> (r: (Vec<Tx>, Vec<(Tx, Vec<Id>)>))
    requires
        keys_unique(pending_view(t@)),
    ensures
        r.0@.map_values(|x: Tx| x@).no_duplicates(),
        r.0@.map_values(|x: Tx| x@).to_set() == ready_txs(map_of(pending_view(t@)), elders@),
        keys_unique(pending_view(r.1@)),
        map_of(pending_view(r.1@)) == map_of(pending_view(t@)).remove_keys(
            ready_txs(map_of(pending_view(t@)), elders@),
        ),
{
    let ghost pv = pending_view(t@);
    let mut ready: Vec<Tx> = Vec::new();
    let mut kept: Vec<(Tx, Vec<Id>)> = Vec::new();
    let ghost mut qs: Seq<int> = Seq::empty();
    let mut k: usize = 0;
    while k < t.len()
        invariant
            pv == pending_view(t@),
            keys_unique(pv),
            k <= t.len(),
            qs.len() == ready@.len(),
            forall|j: int| 0 <= j < qs.len() ==> 0 <= #[trigger] qs[j] < k && ready@[j]@ == pv[qs[j]].0 && has_quorum(pv[qs[j]].1, elders@),
            forall|a: int, b: int| 0 <= a < b < qs.len() ==> #[trigger] qs[a] < #[trigger] qs[b],
            forall|q: int| 0 <= q < k && has_quorum((#[trigger] pv[q]).1, elders@) ==> exists|j: int| 0 <= j < qs.len() && qs[j] == q,
            keys_unique(pending_view(kept@)),
            forall|x: TxV|
                #[trigger] map_of(pending_view(kept@)).contains_key(x) <==> exists|q: int|
                    0 <= q < k && (#[trigger] pv[q]).0 == x && !has_quorum(pv[q].1, elders@),
            forall|q: int|
                0 <= q < k && !has_quorum(pv[q].1, elders@) ==> map_of(pending_view(kept@))[(
                #[trigger] pv[q]).0] == pv[q].1,
        decreases t.len() - k,
    {
        let ghost kv = pending_view(kept@);
        let ghost r0 = ready@;
        assert(pv[k as int] == (t@[k as int].0@, t@[k as int].1@.to_set()));
        let x = copy_tx(&t[k].0);
        if quorum(&t[k].1, elders) {
            ready.push(x);
            proof {
                let q0 = qs;
                qs = qs.push(k as int);
                assert forall|q: int| 0 <= q < k + 1 && has_quorum((#[trigger] pv[q]).1, elders@) implies exists|j: int| 0 <= j < qs.len() && qs[j] == q by {
                    if q < k {
                        let j = choose|j: int| 0 <= j < q0.len() && q0[j] == q;
                        assert(qs[j] == q);
                    } else {
                        assert(qs[q0.len() as int] == q);
                    }
                }
            }
        } else {
            let ws = t[k].1.clone();
            proof {
                assert(ws@ =~= t@[k as int].1@);
                if map_of(kv).contains_key(pv[k as int].0) {
                    let j = choose|j: int|
                        0 <= j < k && (#[trigger] pv[j]).0 == pv[k as int].0 && !has_quorum(pv[j].1, elders@);
                    assert(pv[j].0 != pv[k as int].0);
                }
                lemma_map_of_push(kv, pv[k as int].0, ws@.to_set());
            }
            let ghost tv = x@;
            kept.push((x, ws));
            proof {
                assert(pending_view(kept@) =~= kv.push((tv, ws@.to_set())));
                assert forall|y: TxV| #[trigger] map_of(pending_view(kept@)).contains_key(y) <==> exists|q: int|
                    0 <= q < k + 1 && (#[trigger] pv[q]).0 == y && !has_quorum(pv[q].1, elders@) by {
                    if y != pv[k as int].0 && map_of(pending_view(kept@)).contains_key(y) {
                        assert(map_of(kv).contains_key(y));
                    }
                }
                assert forall|q: int|
                    0 <= q < k + 1 && !has_quorum(pv[q].1, elders@) implies map_of(pending_view(kept@))[(
                    #[trigger] pv[q]).0] == pv[q].1 by {
                    if q < k {
                        assert(pv[q].0 != pv[k as int].0);
                    }
                }
            }
        }
        k = k + 1;
    }
    let ghost rs = ready@.map_values(|x: Tx| x@);
    let ghost pm = map_of(pv);
    let ghost rd = ready_txs(pm, elders@);
    proof {
        lemma_map_of_all(pv);
        assert forall|x: TxV| #[trigger] rs.to_set().contains(x) == rd.contains(x) by {
            if rs.contains(x) {
                let j = choose|j: int| 0 <= j < rs.len() && rs[j] == x;
                assert(rs[j] == ready@[j]@);
                let q = qs[j];
                assert(pm[pv[q].0] == pv[q].1);
            }
            if rd.contains(x) {
                let q = choose|q: int| 0 <= q < pv.len() && (#[trigger] pv[q]).0 == x;
                assert(pm[pv[q].0] == pv[q].1);
                let j = choose|j: int| 0 <= j < qs.len() && qs[j] == q;
                assert(rs[j] == x);
            }
        }
        assert(rs.to_set() =~= rd);
        assert forall|a: int, b: int| 0 <= a < rs.len() && 0 <= b < rs.len() && a != b implies rs[a] != rs[b] by {
            assert(rs[a] == pv[qs[a]].0 && rs[b] == pv[qs[b]].0);
            if a < b {
                assert(qs[a] < qs[b]);
                assert(pv[qs[a]].0 != pv[qs[b]].0);
            } else {
                assert(qs[b] < qs[a]);
                assert(pv[qs[b]].0 != pv[qs[a]].0);
            }
        }
        let target = pm.remove_keys(rd);
        assert forall|x: TxV| #[trigger] map_of(pending_view(kept@)).contains_key(x) == target.contains_key(x) by {
            if map_of(pending_view(kept@)).contains_key(x) {
                let q = choose|q: int| 0 <= q < k && (#[trigger] pv[q]).0 == x && !has_quorum(pv[q].1, elders@);
                assert(pm[pv[q].0] == pv[q].1);
            }
            if target.contains_key(x) {
                let q = choose|q: int| 0 <= q < pv.len() && (#[trigger] pv[q]).0 == x;
                assert(pm[pv[q].0] == pv[q].1);
            }
        }
        assert forall|x: TxV| #[trigger] map_of(pending_view(kept@)).contains_key(x) implies map_of(pending_view(kept@))[x] == target[x] by {
            let q = choose|q: int| 0 <= q < k && (#[trigger] pv[q]).0 == x && !has_quorum(pv[q].1, elders@);
            assert(pm[pv[q].0] == pv[q].1);
        }
        assert(map_of(pending_view(kept@)) =~= target);
    }
    (ready, kept)
}

proof fn lemma_unspent_mono(tx: TxV, m: int, n: int, cm: Map<DbcIdV, TxV>)
    requires
        0 <= m <= n,
    ensures
        0 <= unspent_of(tx, m, cm) <= unspent_of(tx, n, cm),
    decreases n,
{
    if m < n {
        lemma_unspent_mono(tx, m, n - 1, cm);
    } else if n > 0 {
        lemma_unspent_mono(tx, n - 1, n - 1, cm);
    }
}

proof fn lemma_committed_mono(cs: Seq<(DbcIdV, TxV)>, m: int, n: int, cm: Map<DbcIdV, TxV>)
    requires
        0 <= m <= n,
    ensures
        0 <= committed_unspent(cs, m, cm) <= committed_unspent(cs, n, cm),
    decreases n,
{
    if n > 0 {
        lemma_unspent_mono(cs[n - 1].1, 0, cs[n - 1].1.outputs.len() as int, cm);
        if m < n {
            lemma_committed_mono(cs, m, n - 1, cm);
        } else {
            lemma_committed_mono(cs, n - 1, n - 1, cm);
        }
    }
}

impl Ledger {
    /// Adds to `acc` what the outputs of `tx` carry that is not spent; `None`
    /// where the sum does not fit in a `u64`.
    fn add_unspent(&self, tx: &Tx, acc: u64) -> (r: Option<u64>)
        requires
            self.wf(),
        ensures
            match r {
                Some(v) => v == acc + unspent_of(tx@, tx@.outputs.len() as int, self.commit_map()),
                None => acc + unspent_of(tx@, tx@.outputs.len() as int, self.commit_map()) > u64::MAX,
            },
    {
        let ghost cm = self.commit_map();
        let mut sum: u64 = acc;
        let mut o: usize = 0;
        while o < tx.outputs.len()
            invariant
                self.wf(),
                cm == self.commit_map(),
                o <= tx.outputs.len(),
                tx@.outputs == tx.outputs@,
                sum == acc + unspent_of(tx@, o as int, cm),
            decreases tx.outputs.len() - o,
        {
            let id = DbcId { inputs: copy_dbcs(&tx.inputs), output_index: o as u64 };
            assert(id@ == DbcIdV { inputs: tx@.inputs, output_index: o as u64 });
            if self.find_commitment(&id).is_none() {
                match sum.checked_add(tx.outputs[o]) {
                    Some(v) => {
                        sum = v;
                    },
                    None => {
                        proof {
                            lemma_unspent_mono(tx@, o + 1, tx@.outputs.len() as int, cm);
                        }
                        return None;
                    },
                }
            }
            o = o + 1;
        }
        Some(sum)
    }

    /// What the outputs of the genesis transaction and of every committed
    /// transaction carry that no commitment has spent; `None` where that does not
    /// fit in a `u64`.
    pub fn sum_unspent_outputs(&self) -> (r: Option<u64>)
        requires
            self.wf(),
        ensures
            match r {
                Some(v) => v == self.unspent_total(),
                None => self.unspent_total() > u64::MAX,
            },
    {
        let ghost cm = self.commit_map();
        let ghost cs = commit_view(self.commitments@);
        let genesis = genesis_dbc().tx;
        assert(genesis@ == genesis_tx_spec());
        assert(genesis@.outputs.len() == 1);
        let mut acc: u64 = match self.add_unspent(&genesis, 0) {
            Some(v) => v,
            None => {
                proof {
                    lemma_committed_mono(cs, 0, self.commitments.len() as int, cm);
                }
                return None;
            },
        };
        let mut i: usize = 0;
        while i < self.commitments.len()
            invariant
                self.wf(),
                cm == self.commit_map(),
                cs == commit_view(self.commitments@),
                i <= self.commitments.len(),
                genesis@ == genesis_tx_spec(),
                acc == unspent_of(genesis_tx_spec(), 1, cm) + committed_unspent(cs, i as int, cm),
            decreases self.commitments.len() - i,
        {
            let t = &self.commitments[i].1;
            assert(cs[i as int].1 == t@);
            let mut first = true;
            let mut j: usize = 0;
            while j < i
                invariant
                    i < self.commitments.len(),
                    cs == commit_view(self.commitments@),
                    cs[i as int].1 == t@,
                    j <= i,
                    first == forall|jj: int| 0 <= jj < j ==> (#[trigger] cs[jj]).1 != cs[i as int].1,
                decreases i - j,
            {
                assert(cs[j as int].1 == self.commitments@[j as int].1@);
                if tx_eq(&self.commitments[j].1, t) {
                    first = false;
                }
                j = j + 1;
            }
            if first && !tx_eq(t, &genesis) {
                match self.add_unspent(t, acc) {
                    Some(v) => {
                        acc = v;
                    },
                    None => {
                        proof {
                            lemma_committed_mono(cs, i + 1, self.commitments.len() as int, cm);
                            lemma_unspent_mono(genesis_tx_spec(), 0, 1, cm);
                        }
                        return None;
                    },
                }
            }
            i = i + 1;
        }
        Some(acc)
    }
}

/// The ids of `s` but `id`, in order.
pub open spec fn ids_but(s: Seq<Id>, id: Id) -> Seq<Id>
    decreases s.len(),
{
    if s.len() == 0 {
        Seq::empty()
    } else if s.last() == id {
        ids_but(s.drop_last(), id)
    } else {
        ids_but(s.drop_last(), id).push(s.last())
    }
}

/// The ids of `v` but `id`, in order.
pub fn without_id(v: &Vec<Id>, id: Id) -> (r: Vec<Id>)
    ensures
        r@ == ids_but(v@, id),
{
    let mut r: Vec<Id> = Vec::new();
    let mut i: usize = 0;
    while i < v.len()
        invariant
            i <= v.len(),
            r@ == ids_but(v@.subrange(0, i as int), id),
        decreases v.len() - i,
    {
        proof {
            assert(v@.subrange(0, i + 1).drop_last() =~= v@.subrange(0, i as int));
        }
        if v[i] != id {
            r.push(v[i]);
        }
        i = i + 1;
    }
    proof {
        assert(v@.subrange(0, v.len() as int) =~= v@);
    }
    r
}

/// The spending side of a node: its ledger.
#[derive(Clone, Debug, PartialEq, Eq, PartialOrd, Ord, Hash)]
pub struct Wallet {
    pub ledger: Ledger,
}

/// The pending transactions once `id` and `witness` have witnessed `tx`, where it is valid.
pub open spec fn logged(l: Ledger, tx: TxV, witness: Id, id: Id) -> Map<TxV, Set<Id>> {
    if valid_tx(l.commit_map(), l.pending_map(), tx) {
        l.pending_map().insert(tx, tx_witnesses(l.pending_map(), tx).insert(witness).insert(id))
    } else {
        l.pending_map()
    }
}

/// `after` is `before` once node `id` has witnessed `tx` for `src`, where it is
/// valid, and committed what holds a quorum of `elders`, in some order.
pub open spec fn spend_step(
    before: Ledger,
    after: Ledger,
    elders: Seq<Id>,
    tx: TxV,
    src: Id,
    id: Id,
) -> bool {
    &&& after.wf()
    &&& after.pending_map() == logged(before, tx, src, id).remove_keys(
        ready_txs(logged(before, tx, src, id), elders),
    )
    &&& exists|rs: Seq<TxV>|
        {
            &&& rs.no_duplicates()
            &&& rs.to_set() == ready_txs(logged(before, tx, src, id), elders)
            &&& after.commit_map() == commit_all(before.commit_map(), rs)
        }
}

impl Wallet {
    pub open spec fn wf(&self) -> bool {
        self.ledger.wf()
    }

    /// A wallet with an empty ledger.
    pub fn new(elders: &Elders) -> (r: Wallet)
        ensures
            r.wf(),
            spends_consistent(r.ledger.commit_map(), r.ledger.pending_map()),
            r.ledger.unspent_total() == GENESIS_AMOUNT,
            r.ledger.commit_map() == Map::<DbcIdV, TxV>::empty(),
            r.ledger.pending_map() == Map::<TxV, Set<Id>>::empty(),
            r.ledger.commitments@.len() == 0,
    {
        Wallet { ledger: Ledger::new(elders) }
    }

    /// The transaction committed as the spender of the DBC `dbc_id`.
    pub fn read_tx(&self, dbc_id: &DbcId) -> (r: Option<Tx>)
        requires
            self.wf(),
        ensures
            match r {
                Some(t) => self.ledger.commit_map().contains_key(dbc_id@) && t@
                    == self.ledger.commit_map()[dbc_id@],
                None => !self.ledger.commit_map().contains_key(dbc_id@),
            },
    {
        match self.ledger.find_commitment(dbc_id) {
            Some(k) => Some(copy_tx(&self.ledger.commitments[k].1)),
            None => None,
        }
    }

    /// The request to spend `inputs` into `outputs`: to be sent to every elder.
    pub fn reissue(&self, membership: &Membership, inputs: Vec<Dbc>, outputs: Vec<u64>) -> (r: (
        Elders,
        crate::node::Msg,
    ))
        requires
            membership.wf(),
        ensures
            r.0@ == elders_of(membership.stable_set.members@, membership.elder_count),
            is_wire_copy(r.1.stable_set, membership.stable_set),
            r.1.action == Action::Wallet(Msg::ReqReissue(Tx { inputs, outputs })),
    {
        let tx = Tx { inputs, outputs };
        (membership.elders(), build_msg(membership, Action::Wallet(Msg::ReqReissue(tx))))
    }

    /// Handles a spend request from `src` at node `id`: witnesses it and, the first
    /// time it is seen valid, returns it to be sent on to every other elder. Then
    /// commits what holds a quorum of the elders.
    pub fn on_msg(&mut self, membership: &Membership, id: Id, src: Id, msg: Msg) -> (r: Option<
        (Elders, crate::node::Msg),
    >)
        requires
            old(self).wf(),
            membership.wf(),
        ensures
            final(self).wf(),
            r.is_some() == (valid_tx(old(self).ledger.commit_map(), old(self).ledger.pending_map(), msg@)
                && !old(self).ledger.pending_map().contains_key(msg@)),
            r matches Some(out) ==> {
                &&& out.0@ == ids_but(elders_of(membership.stable_set.members@, membership.elder_count), id)
                &&& is_wire_copy(out.1.stable_set, membership.stable_set)
                &&& out.1.action matches Action::Wallet(m) && m@ == msg@
            },
            spend_step(
                old(self).ledger,
                final(self).ledger,
                elders_of(membership.stable_set.members@, membership.elder_count),
                msg@,
                src,
                id,
            ),
            spends_consistent(old(self).ledger.commit_map(), old(self).ledger.pending_map())
                ==> spends_consistent(
                final(self).ledger.commit_map(),
                final(self).ledger.pending_map(),
            ),
    {
        let elders = membership.elders();
        let mut out: Option<(Elders, crate::node::Msg)> = None;
        match msg {
            Msg::ReqReissue(tx) => {
                let copy = copy_tx(&tx);
                if self.ledger.log_tx_share(id, copy, src) {
                    let to = without_id(&elders, id);
                    out = Some((to, build_msg(membership, Action::Wallet(Msg::ReqReissue(tx)))));
                }
            },
        }
        self.ledger.process_completed_commitments(membership);
        out
    }
}

/// The commitments and pending transactions hold together: each committed
/// transaction is recorded as the spender of every one of its inputs and of nothing
/// else, no input of a pending transaction is spent, and no two pending
/// transactions share an input.
pub open spec fn spends_consistent(cm: Map<DbcIdV, TxV>, pm: Map<TxV, Set<Id>>) -> bool {
    &&& forall|k: DbcIdV, i: int|
        #[trigger] cm.contains_key(k) && 0 <= i < cm[k].inputs.len() ==> cm.contains_key(
            dbc_id_of(#[trigger] cm[k].inputs[i]),
        ) && cm[dbc_id_of(cm[k].inputs[i])] == cm[k]
    &&& forall|k: DbcIdV| #[trigger] cm.contains_key(k) ==> consumes(cm[k], k)
    &&& forall|p: TxV, i: int|
        #[trigger] pm.contains_key(p) && 0 <= i < p.inputs.len() ==> !cm.contains_key(
            dbc_id_of(#[trigger] p.inputs[i]),
        )
    &&& forall|p: TxV, q: TxV, i: int, j: int|
        #[trigger] pm.contains_key(p) && #[trigger] pm.contains_key(q) && p != q && 0 <= i
            < p.inputs.len() && 0 <= j < q.inputs.len() ==> dbc_id_of(#[trigger] p.inputs[i])
            != dbc_id_of(#[trigger] q.inputs[j])
}

/// No double spend: in a ledger whose spends hold together, two committed
/// transactions that consume one DBC are the same transaction.
pub proof fn lemma_no_double_spend(
    cm: Map<DbcIdV, TxV>,
    pm: Map<TxV, Set<Id>>,
    k1: DbcIdV,
    k2: DbcIdV,
    k: DbcIdV,
)
    requires
        spends_consistent(cm, pm),
        cm.contains_key(k1),
        cm.contains_key(k2),
        consumes(cm[k1], k),
        consumes(cm[k2], k),
    ensures
        cm[k1] == cm[k2],
{
    let i = choose|i: int| 0 <= i < cm[k1].inputs.len() && dbc_id_of(#[trigger] cm[k1].inputs[i]) == k;
    let j = choose|j: int| 0 <= j < cm[k2].inputs.len() && dbc_id_of(#[trigger] cm[k2].inputs[j]) == k;
    assert(cm[dbc_id_of(cm[k1].inputs[i])] == cm[k1]);
    assert(cm[dbc_id_of(cm[k2].inputs[j])] == cm[k2]);
}

/// Committing pending transactions one after another keeps the spends together.
pub proof fn lemma_commit_all_consistent(cm: Map<DbcIdV, TxV>, pm: Map<TxV, Set<Id>>, rs: Seq<TxV>)
    requires
        spends_consistent(cm, pm),
        rs.no_duplicates(),
        forall|i: int| 0 <= i < rs.len() ==> pm.contains_key(#[trigger] rs[i]),
    ensures
        spends_consistent(commit_all(cm, rs), pm.remove_keys(rs.to_set())),
    decreases rs.len(),
{
    if rs.len() > 0 {
        let init = rs.drop_last();
        let t = rs.last();
        assert(init.no_duplicates());
        assert forall|i: int| 0 <= i < init.len() implies pm.contains_key(#[trigger] init[i]) by {
            assert(init[i] == rs[i]);
        }
        lemma_commit_all_consistent(cm, pm, init);
        let cm_before = commit_all(cm, init);
        let pend_before = pm.remove_keys(init.to_set());
        assert(!init.to_set().contains(t)) by {
            if init.contains(t) {
                let j = choose|j: int| 0 <= j < init.len() && init[j] == t;
                assert(rs[j] == rs[rs.len() - 1]);
            }
        }
        assert(pm.contains_key(t)) by {
            assert(rs[rs.len() - 1] == t);
        }
        assert(pend_before.contains_key(t));
        let cm_after = commit_tx_spec(cm_before, t);
        assert(commit_all(cm, rs) == cm_after);
        assert(rs.to_set() =~= init.to_set().insert(t)) by {
            assert forall|x: TxV| #[trigger] rs.to_set().contains(x) == init.to_set().insert(t).contains(x) by {
                if rs.contains(x) {
                    let j = choose|j: int| 0 <= j < rs.len() && rs[j] == x;
                    if j < init.len() {
                        assert(init[j] == x);
                    }
                }
                if init.contains(x) {
                    let j = choose|j: int| 0 <= j < init.len() && init[j] == x;
                    assert(rs[j] == x);
                }
                if x == t {
                    assert(rs[rs.len() - 1] == x);
                }
            }
        }
        let pend_after = pm.remove_keys(rs.to_set());
        assert(pend_after =~= pend_before.remove(t));
        // keys of cm_after that t consumes are new
        assert forall|k: DbcIdV| consumes(t, k) implies !cm_before.contains_key(k) by {
            let i = choose|i: int| 0 <= i < t.inputs.len() && dbc_id_of(#[trigger] t.inputs[i]) == k;
            assert(!cm_before.contains_key(dbc_id_of(t.inputs[i])));
        }
        assert forall|k: DbcIdV, i: int|
            #[trigger] cm_after.contains_key(k) && 0 <= i < cm_after[k].inputs.len() implies cm_after.contains_key(
                dbc_id_of(#[trigger] cm_after[k].inputs[i]),
            ) && cm_after[dbc_id_of(cm_after[k].inputs[i])] == cm_after[k] by {
            if consumes(t, k) {
                assert(cm_after[k] == t);
                assert(consumes(t, dbc_id_of(t.inputs[i])));
            } else {
                assert(cm_before.contains_key(k));
                assert(cm_before.contains_key(dbc_id_of(cm_before[k].inputs[i])));
                let k2 = dbc_id_of(cm_before[k].inputs[i]);
                assert(!consumes(t, k2));
            }
        }
        assert forall|k: DbcIdV| #[trigger] cm_after.contains_key(k) implies consumes(cm_after[k], k) by {
            if !consumes(t, k) {
                assert(cm_before.contains_key(k));
            }
        }
        assert forall|p: TxV, i: int|
            #[trigger] pend_after.contains_key(p) && 0 <= i < p.inputs.len() implies !cm_after.contains_key(
                dbc_id_of(#[trigger] p.inputs[i]),
            ) by {
            assert(pend_before.contains_key(p) && p != t);
            assert(!cm_before.contains_key(dbc_id_of(p.inputs[i])));
            if consumes(t, dbc_id_of(p.inputs[i])) {
                let j = choose|j: int| 0 <= j < t.inputs.len() && dbc_id_of(#[trigger] t.inputs[j]) == dbc_id_of(p.inputs[i]);
                assert(dbc_id_of(p.inputs[i]) != dbc_id_of(t.inputs[j]));
            }
        }
    } else {
        assert(rs.to_set() =~= Set::<TxV>::empty());
        assert(pm.remove_keys(rs.to_set()) =~= pm);
    }
}

/// Witnessing a valid transaction keeps the spends together.
proof fn lemma_log_consistent(l: Ledger, tx: TxV, witness: Id, id: Id)
    ensures
        spends_consistent(l.commit_map(), l.pending_map())
            && valid_tx(l.commit_map(), l.pending_map(), tx) ==> spends_consistent(
            l.commit_map(),
            l.pending_map().insert(tx, tx_witnesses(l.pending_map(), tx).insert(witness).insert(id)),
        ),
{
    let cm = l.commit_map();
    let pm = l.pending_map();
    let pm1 = pm.insert(tx, tx_witnesses(pm, tx).insert(witness).insert(id));
    if spends_consistent(cm, pm) && valid_tx(cm, pm, tx) {
        assert forall|p: TxV, i: int|
            #[trigger] pm1.contains_key(p) && 0 <= i < p.inputs.len() implies !cm.contains_key(
                dbc_id_of(#[trigger] p.inputs[i]),
            ) by {
            if p != tx {
                assert(pm.contains_key(p));
            }
        }
        assert forall|p: TxV, q: TxV, i: int, j: int|
            #[trigger] pm1.contains_key(p) && #[trigger] pm1.contains_key(q) && p != q && 0 <= i
                < p.inputs.len() && 0 <= j < q.inputs.len() implies dbc_id_of(#[trigger] p.inputs[i])
                != dbc_id_of(#[trigger] q.inputs[j]) by {
            if p == tx {
                assert(pm.contains_key(q));
                if dbc_id_of(p.inputs[i]) == dbc_id_of(q.inputs[j]) {
                    assert(tx.inputs[i] == q.inputs[j]);
                    assert(q.inputs.contains(tx.inputs[i]));
                }
            } else if q == tx {
                assert(pm.contains_key(p));
                if dbc_id_of(p.inputs[i]) == dbc_id_of(q.inputs[j]) {
                    assert(tx.inputs[j] == p.inputs[i]);
                    assert(p.inputs.contains(tx.inputs[j]));
                }
            } else {
                assert(pm.contains_key(p) && pm.contains_key(q));
            }
        }
    }
}

/// How many of `elders` have committed `t` as the spender of the DBC `k`, where
/// `commits` holds each node's commitments.
pub open spec fn count_committing(
    elders: Seq<Id>,
    commits: Map<Id, Map<DbcIdV, TxV>>,
    k: DbcIdV,
    t: TxV,
) -> nat
    decreases elders.len(),
{
    if elders.len() == 0 {
        0
    } else {
        let e = elders.last();
        count_committing(elders.drop_last(), commits, k, t) + if commits.contains_key(e)
            && commits[e].contains_key(k) && commits[e][k] == t {
            1nat
        } else {
            0nat
        }
    }
}

proof fn lemma_count_committing_disjoint(
    elders: Seq<Id>,
    commits: Map<Id, Map<DbcIdV, TxV>>,
    k: DbcIdV,
    t1: TxV,
    t2: TxV,
)
    requires
        t1 != t2,
    ensures
        count_committing(elders, commits, k, t1) + count_committing(elders, commits, k, t2)
            <= elders.len(),
    decreases elders.len(),
{
    if elders.len() > 0 {
        lemma_count_committing_disjoint(elders.drop_last(), commits, k, t1, t2);
    }
}

/// No concurrent double quorum: among one set of elders, at most one transaction
/// spending a given DBC has been committed by a strict majority of them.
pub proof fn lemma_no_concurrent_double_quorum(
    elders: Seq<Id>,
    commits: Map<Id, Map<DbcIdV, TxV>>,
    k: DbcIdV,
    t1: TxV,
    t2: TxV,
)
    requires
        crate::fake_crypto::is_majority(
            count_committing(elders, commits, k, t1) as int,
            elders.len() as int,
        ),
        crate::fake_crypto::is_majority(
            count_committing(elders, commits, k, t2) as int,
            elders.len() as int,
        ),
    ensures
        t1 == t2,
{
    if t1 != t2 {
        lemma_count_committing_disjoint(elders, commits, k, t1, t2);
    }
}

/// Whether `t` consumes the DBC identified by `k`.
fn consumes_id(t: &Tx, k: &DbcId) -> (r: bool)
    ensures
        r == consumes(t@, k@),
{
    proof {
        lemma_dbcs_view(t.inputs@);
    }
    let mut i: usize = 0;
    while i < t.inputs.len()
        invariant
            i <= t.inputs.len(),
            t@.inputs.len() == t.inputs.len(),
            forall|j: int| 0 <= j < t.inputs.len() ==> #[trigger] t@.inputs[j] == t.inputs@[j]@,
            forall|j: int| 0 <= j < i ==> dbc_id_of(#[trigger] t@.inputs[j]) != k@,
        decreases t.inputs.len() - i,
    {
        if dbc_id_eq(&t.inputs[i].id(), k) {
            assert(dbc_id_of(t@.inputs[i as int]) == k@);
            return true;
        }
        i = i + 1;
    }
    false
}

} // verus!
