use vstd::prelude::*;

use crate::assoc::{
    assoc_map, distinct_keys, lemma_assoc_contains, lemma_assoc_get, lemma_assoc_push,
    lemma_assoc_update, lemma_distinct_push,
};
use crate::errors::Error;
use vstd::pervasive::VecAdditionalExecFns;

verus! {

/// The status machine of an intent: Pending -> Funded -> Executing ->
/// Completed, with Failed reachable from Funded or Executing. Completed and
/// Failed are terminal; there are no backward edges.
#[derive(Clone, Copy, Debug, PartialEq, Eq, Structural)]
pub enum IntentStatus {
    Pending,
    Funded,
    Executing,
    Completed,
    Failed,
}

/// A tracked request to move funds from a deposit address to a recipient via
/// an external facilitator. Created once, never deleted, mutated only along
/// the status machine.
pub struct Intent {
    pub id: String,
    pub user: String,
    pub intent_type: String,
    pub deposit_address: String,
    pub amount: u128,
    pub status: IntentStatus,
    pub redirect_url: String,
    pub created_at: u64,
}

/// The mathematical content of an [`Intent`].
#[verifier::ext_equal]
pub ghost struct IntentV {
    pub id: Seq<char>,
    pub user: Seq<char>,
    pub intent_type: Seq<char>,
    pub deposit_address: Seq<char>,
    pub amount: u128,
    pub status: IntentStatus,
    pub redirect_url: Seq<char>,
    pub created_at: u64,
}

impl View for Intent {
    type V = IntentV;

    open spec fn view(&self) -> IntentV {
        IntentV {
            id: self.id@,
            user: self.user@,
            intent_type: self.intent_type@,
            deposit_address: self.deposit_address@,
            amount: self.amount,
            status: self.status,
            redirect_url: self.redirect_url@,
            created_at: self.created_at,
        }
    }
}

/// The balance query that `verify_deposit` asks the host to dispatch to the
/// deposit oracle. The answer arrives later, out of band, and is correlated
/// by `intent_id`; the relayer then calls `mark_funded`.
pub struct DepositQuery {
    pub intent_id: String,
    pub deposit_address: String,
}

/// The payment that `execute_x402_payment` asks the host to dispatch to the
/// external facilitator. Settlement is reported back through
/// `on_x402_payment_success` or `on_x402_payment_rejected`, correlated by
/// `intent_id`.
pub struct PaymentRequest {
    pub intent_id: String,
    pub amount: u128,
    pub recipient: String,
    pub currency: String,
}

/// The mathematical content of the orchestrator: the intent table plus the
/// two collaborator addresses.
#[verifier::ext_equal]
pub ghost struct PayV {
    pub intents: Map<Seq<char>, IntentV>,
    pub facilitator: Seq<char>,
    pub intents_contract: Seq<char>,
}

/// Payment-intent orchestrator: owns the intent table and drives each intent
/// along the status machine. External work (oracle queries, facilitator
/// payments) is returned as dispatch records, never performed here.
pub struct AnyonePay {
    intents: Vec<Intent>,
    x402_facilitator: String,
    intents_contract: String,
}

/// The intent table as an association list of (id, content) pairs.
pub open spec fn intent_entries(s: Seq<Intent>) -> Seq<(Seq<char>, IntentV)> {
    s.map_values(|it: Intent| (it.id@, it@))
}

impl View for AnyonePay {
    type V = PayV;

    closed spec fn view(&self) -> PayV {
        PayV {
            intents: assoc_map(intent_entries(self.intents@)),
            facilitator: self.x402_facilitator@,
            intents_contract: self.intents_contract@,
        }
    }
}

/// Copies an intent field by field.
fn copy_intent(it: &Intent) -> (r: Intent)
    ensures
        r == *it,
{
    let r = Intent {
        id: it.id.clone(),
        user: it.user.clone(),
        intent_type: it.intent_type.clone(),
        deposit_address: it.deposit_address.clone(),
        amount: it.amount,
        status: it.status,
        redirect_url: it.redirect_url.clone(),
        created_at: it.created_at,
    };
    r
}

impl AnyonePay {
    /// Representation invariant: no intent id occurs twice, and each stored
    /// intent carries the id it is filed under.
    pub closed spec fn inv(&self) -> bool {
        distinct_keys(intent_entries(self.intents@))
    }

    pub fn new(x402_facilitator: String, intents_contract: String) -> (r: Self)
        ensures
            r.inv(),
            r@.intents == Map::<Seq<char>, IntentV>::empty(),
            r@.facilitator == x402_facilitator@,
            r@.intents_contract == intents_contract@,
    {
        let r = AnyonePay { intents: Vec::new(), x402_facilitator, intents_contract };
        proof {
            assert(intent_entries(r.intents@) =~= Seq::<(Seq<char>, IntentV)>::empty());
        }
        r
    }

    /// The index of the intent filed under `id`, if any.
    fn find_index(&self, id: &String) -> (r: Option<usize>)
        ensures
            match r {
                Some(i) => i < self.intents@.len() && self.intents@[i as int].id@ == id@,
                None => forall|i: int|
                    0 <= i < self.intents@.len() ==> (#[trigger] self.intents@[i]).id@ != id@,
            },
    {
        let mut i: usize = 0;
        while i < self.intents.len()
            invariant
                i <= self.intents@.len(),
                forall|j: int| 0 <= j < i ==> (#[trigger] self.intents@[j]).id@ != id@,
            decreases self.intents@.len() - i,
        {
            if self.intents[i].id == *id {
                return Some(i);
            }
            i = i + 1;
        }
        None
    }

    /// Relates the index search to the abstract table.
    proof fn lemma_lookup(&self, id: Seq<char>)
        ensures
            self@.intents.contains_key(id) <==> exists|i: int|
                0 <= i < self.intents@.len() && (#[trigger] self.intents@[i]).id@ == id,
            forall|i: int|
                0 <= i < self.intents@.len() && (#[trigger] self.intents@[i]).id@ == id
                    && distinct_keys(intent_entries(self.intents@))
                    ==> self@.intents[id] == self.intents@[i]@,
    {
        let es = intent_entries(self.intents@);
        lemma_assoc_contains(es, id);
        assert(forall|i: int|
            0 <= i < self.intents@.len() ==> (#[trigger] es[i]).0 == self.intents@[i].id@);
        if exists|i: int| 0 <= i < es.len() && (#[trigger] es[i]).0 == id {
            let i = choose|i: int| 0 <= i < es.len() && (#[trigger] es[i]).0 == id;
            assert((#[trigger] self.intents@[i]).id@ == id);
        }
        if exists|i: int| 0 <= i < self.intents@.len() && (#[trigger] self.intents@[i]).id@ == id {
            let i = choose|i: int|
                0 <= i < self.intents@.len() && (#[trigger] self.intents@[i]).id@ == id;
            assert((#[trigger] es[i]).0 == id);
        }
        assert forall|i: int|
            0 <= i < self.intents@.len() && (#[trigger] self.intents@[i]).id@ == id
                && distinct_keys(es) implies self@.intents[id] == self.intents@[i]@ by {
            lemma_assoc_get(es, i);
        }
    }

    /// Creates a new intent with status Pending under a caller-supplied id
    /// and returns a copy of the stored record. A duplicate id silently
    /// overwrites the prior record (trusted-unique assumption). The host
    /// supplies the caller's identity and the current timestamp.
    pub fn create_intent(
        &mut self,
        intent_id: String,
        user: String,
        intent_type: String,
        deposit_address: String,
        amount: u128,
        redirect_url: String,
        created_at: u64,
    ) -> (r: Intent)
        requires
            old(self).inv(),
        ensures
            final(self).inv(),
            r@ == (IntentV {
                id: intent_id@,
                user: user@,
                intent_type: intent_type@,
                deposit_address: deposit_address@,
                amount: amount,
                status: IntentStatus::Pending,
                redirect_url: redirect_url@,
                created_at: created_at,
            }),
            final(self)@.intents == old(self)@.intents.insert(intent_id@, r@),
            final(self)@.facilitator == old(self)@.facilitator,
            final(self)@.intents_contract == old(self)@.intents_contract,
    {
        let stored = Intent {
            id: intent_id,
            user,
            intent_type,
            deposit_address,
            amount,
            status: IntentStatus::Pending,
            redirect_url,
            created_at,
        };
        let r = copy_intent(&stored);
        let ghost es = intent_entries(self.intents@);
        match self.find_index(&stored.id) {
            Some(i) => {
                proof {
                    assert(es[i as int] == (self.intents@[i as int].id@, self.intents@[i as int]@));
                    lemma_assoc_update(es, i as int, stored@);
                }
                self.intents.set(i, stored);
                proof {
                    assert(intent_entries(self.intents@) =~= es.update(i as int, (r@.id, r@)));
                }
            },
            None => {
                proof {
                    assert(forall|i: int| 0 <= i < es.len() ==> (#[trigger] es[i]).0 != r@.id);
                    lemma_distinct_push(es, r@.id, r@);
                    lemma_assoc_push(es, r@.id, r@);
                }
                self.intents.push(stored);
                proof {
                    assert(intent_entries(self.intents@) =~= es.push((r@.id, r@)));
                }
            },
        }
        r
    }

    /// Looks up an intent by id; a miss is not an error.
    pub fn get_intent(&self, intent_id: String) -> (r: Option<Intent>)
        requires
            self.inv(),
        ensures
            match r {
                Some(it) => self@.intents.contains_key(intent_id@)
                    && it@ == self@.intents[intent_id@],
                None => !self@.intents.contains_key(intent_id@),
            },
    {
        proof {
            self.lemma_lookup(intent_id@);
        }
        match self.find_index(&intent_id) {
            Some(i) => Some(copy_intent(&self.intents[i])),
            None => None,
        }
    }

    /// Replaces the status of the intent at index `i`, returning a copy of
    /// the updated record.
    fn update_status(&mut self, i: usize, status: IntentStatus) -> (r: Intent)
        requires
            old(self).inv(),
            i < old(self).intents@.len(),
        ensures
            final(self).inv(),
            r@ == (IntentV { status: status, ..old(self).intents@[i as int]@ }),
            final(self)@.intents == old(self)@.intents.insert(
                old(self).intents@[i as int].id@,
                r@,
            ),
            final(self)@.facilitator == old(self)@.facilitator,
            final(self)@.intents_contract == old(self)@.intents_contract,
    {
        let ghost es = intent_entries(self.intents@);
        let updated = copy_intent(&self.intents[i]);
        let updated = Intent { status, ..updated };
        let r = copy_intent(&updated);
        proof {
            assert(es[i as int] == (self.intents@[i as int].id@, self.intents@[i as int]@));
            lemma_assoc_update(es, i as int, updated@);
        }
        self.intents.set(i, updated);
        proof {
            assert(intent_entries(self.intents@) =~= es.update(i as int, (r@.id, r@)));
        }
        r
    }

    /// Marks an intent as funded; called by the relayer after it has
    /// observed the deposit. Fails with NotFound if the id is unknown and
    /// with InvalidState unless the intent is Pending; either failure leaves
    /// the state unchanged.
    pub fn mark_funded(&mut self, intent_id: String) -> (r: Result<(), Error>)
        requires
            old(self).inv(),
        ensures
            final(self).inv(),
            !old(self)@.intents.contains_key(intent_id@) ==> r == Err::<(), Error>(Error::NotFound)
                && final(self)@ == old(self)@,
            old(self)@.intents.contains_key(intent_id@)
                && old(self)@.intents[intent_id@].status != IntentStatus::Pending
                ==> r == Err::<(), Error>(Error::InvalidState) && final(self)@ == old(self)@,
            old(self)@.intents.contains_key(intent_id@)
                && old(self)@.intents[intent_id@].status == IntentStatus::Pending
                ==> r == Ok::<(), Error>(()) && final(self)@ == (PayV {
                    intents: old(self)@.intents.insert(intent_id@, (IntentV {
                        status: IntentStatus::Funded,
                        ..old(self)@.intents[intent_id@]
                    })),
                    ..old(self)@
                }),
    {
        proof {
            self.lemma_lookup(intent_id@);
        }
        match self.find_index(&intent_id) {
            None => Err(Error::NotFound),
            Some(i) => {
                if !matches!(self.intents[i].status, IntentStatus::Pending) {
                    return Err(Error::InvalidState);
                }
                self.update_status(i, IntentStatus::Funded);
                Ok(())
            },
        }
    }

    /// Asks for a deposit check: returns the balance query that the host
    /// must dispatch to the deposit oracle. The result is only an optimistic
    /// acknowledgement; the authoritative answer arrives later, out of band.
    /// Fails with NotFound if the id is unknown.
    pub fn verify_deposit(&self, intent_id: String) -> (r: Result<DepositQuery, Error>)
        requires
            self.inv(),
        ensures
            match r {
                Ok(q) => self@.intents.contains_key(intent_id@)
                    && q.intent_id@ == intent_id@
                    && q.deposit_address@ == self@.intents[intent_id@].deposit_address,
                Err(e) => e == Error::NotFound && !self@.intents.contains_key(intent_id@),
            },
    {
        proof {
            self.lemma_lookup(intent_id@);
        }
        match self.find_index(&intent_id) {
            None => Err(Error::NotFound),
            Some(i) => {
                let deposit_address = self.intents[i].deposit_address.clone();
                Ok(DepositQuery { intent_id, deposit_address })
            },
        }
    }

    /// Starts execution of a funded intent: sets its status to Executing and
    /// returns the payment that the host must dispatch to the facilitator.
    /// Fails with NotFound if the id is unknown and with InvalidState unless
    /// the intent is Funded; either failure leaves the state unchanged.
    pub fn execute_x402_payment(
        &mut self,
        intent_id: String,
        amount: u128,
        recipient: String,
    ) -> (r: Result<PaymentRequest, Error>)
        requires
            old(self).inv(),
        ensures
            final(self).inv(),
            !old(self)@.intents.contains_key(intent_id@) ==> final(self)@ == old(self)@
                && (r matches Err(e) && e == Error::NotFound),
            old(self)@.intents.contains_key(intent_id@)
                && old(self)@.intents[intent_id@].status != IntentStatus::Funded
                ==> final(self)@ == old(self)@ && (r matches Err(e) && e == Error::InvalidState),
            old(self)@.intents.contains_key(intent_id@)
                && old(self)@.intents[intent_id@].status == IntentStatus::Funded
                ==> final(self)@ == (PayV {
                    intents: old(self)@.intents.insert(intent_id@, (IntentV {
                        status: IntentStatus::Executing,
                        ..old(self)@.intents[intent_id@]
                    })),
                    ..old(self)@
                }) && (r matches Ok(p) && p.intent_id@ == intent_id@ && p.amount == amount
                    && p.recipient@ == recipient@ && p.currency@ == "usdc"@),
    {
        proof {
            self.lemma_lookup(intent_id@);
        }
        match self.find_index(&intent_id) {
            None => Err(Error::NotFound),
            Some(i) => {
                if !matches!(self.intents[i].status, IntentStatus::Funded) {
                    return Err(Error::InvalidState);
                }
                self.update_status(i, IntentStatus::Executing);
                let currency = "usdc".to_owned();
                Ok(PaymentRequest { intent_id, amount, recipient, currency })
            },
        }
    }

    /// Settlement callback: the facilitator reported success, so the intent
    /// moves from Executing to Completed. Returns a copy of the updated
    /// record. Fails with NotFound if the id is unknown and with
    /// InvalidState unless the intent is Executing.
    pub fn on_x402_payment_success(&mut self, intent_id: String) -> (r: Result<Intent, Error>)
        requires
            old(self).inv(),
        ensures
            final(self).inv(),
            final(self).settle_post(*old(self), intent_id@, IntentStatus::Completed, r),
    {
        self.settle(intent_id, IntentStatus::Completed)
    }

    /// Settlement callback: the facilitator rejected the payment, so the
    /// intent moves from Executing to Failed. Returns a copy of the updated
    /// record. Fails with NotFound if the id is unknown and with
    /// InvalidState unless the intent is Executing.
    pub fn on_x402_payment_rejected(&mut self, intent_id: String) -> (r: Result<Intent, Error>)
        requires
            old(self).inv(),
        ensures
            final(self).inv(),
            final(self).settle_post(*old(self), intent_id@, IntentStatus::Failed, r),
    {
        self.settle(intent_id, IntentStatus::Failed)
    }

    /// What a settlement callback guarantees: an unknown id fails NotFound,
    /// a non-Executing intent fails InvalidState, and otherwise the intent
    /// is re-filed with the settled status and returned.
    pub open spec fn settle_post(
        &self,
        pre: AnyonePay,
        id: Seq<char>,
        status: IntentStatus,
        r: Result<Intent, Error>,
    ) -> bool {
        &&& (!pre@.intents.contains_key(id) ==> self@ == pre@
            && (r matches Err(e) && e == Error::NotFound))
        &&& (pre@.intents.contains_key(id) && pre@.intents[id].status != IntentStatus::Executing
            ==> self@ == pre@ && (r matches Err(e) && e == Error::InvalidState))
        &&& (pre@.intents.contains_key(id) && pre@.intents[id].status == IntentStatus::Executing
            ==> {
                let updated = IntentV { status: status, ..pre@.intents[id] };
                self@ == (PayV { intents: pre@.intents.insert(id, updated), ..pre@ })
                    && (r matches Ok(it) && it@ == updated)
            })
    }

    /// Shared body of the two settlement callbacks.
    fn settle(&mut self, intent_id: String, status: IntentStatus) -> (r: Result<Intent, Error>)
        requires
            old(self).inv(),
        ensures
            final(self).inv(),
            final(self).settle_post(*old(self), intent_id@, status, r),
    {
        proof {
            self.lemma_lookup(intent_id@);
        }
        match self.find_index(&intent_id) {
            None => Err(Error::NotFound),
            Some(i) => {
                if !matches!(self.intents[i].status, IntentStatus::Executing) {
                    return Err(Error::InvalidState);
                }
                let it = self.update_status(i, status);
                Ok(it)
            },
        }
    }
}

impl Default for AnyonePay {
    /// The orchestrator with the default facilitator and oracle addresses
    /// and an empty intent table.
    fn default() -> (r: Self)
        ensures
            r.inv(),
            r@.intents == Map::<Seq<char>, IntentV>::empty(),
            r@.facilitator == "x402.near"@,
            r@.intents_contract == "intents.near"@,
    {
        AnyonePay::new("x402.near".to_owned(), "intents.near".to_owned())
    }
}

/// Law: creating an intent makes it immediately visible to lookup, with
/// status Pending and exactly the supplied field values. `create_intent`
/// files the record under its id with status Pending, and `get_intent`
/// returns precisely what is filed there.
pub proof fn lemma_create_then_lookup(v: PayV, it: IntentV)
    requires
        it.status == IntentStatus::Pending,
    ensures
        ({
            let w = PayV { intents: v.intents.insert(it.id, it), ..v };
            w.intents.contains_key(it.id) && w.intents[it.id] == it
        }),
{
}

} // verus!
