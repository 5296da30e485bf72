use vstd::prelude::*;

use crate::error::{engine_error, engine_error_spec, OpError, PSA_ERROR_BUFFER_TOO_SMALL};
use crate::key_store::{KeyInfoStore, KeyRef, KeyTriple};

verus! {

/// Where one sign or verify request stands. The identifier carried from
/// `Resolved` on is the key's persistent identifier.
#[derive(Clone, Copy, Debug, PartialEq, Eq, Structural)]
pub enum Phase {
    Idle,
    Resolved(u32),
    Admitted(u32),
    Locked(u32),
    Executing(u32),
    Succeeded,
    Failed,
}

/// The request occupies a key slot.
pub open spec fn past_admission(p: Phase) -> bool {
    p is Admitted || p is Locked || p is Executing
}

/// The request holds the handle lock.
pub open spec fn holds_lock(p: Phase) -> bool {
    p is Locked || p is Executing
}

/// The request has run to an end and its place may be reused.
pub open spec fn is_terminal(p: Phase) -> bool {
    p is Succeeded || p is Failed
}

/// The key identifier a phase carries, where it carries one.
pub open spec fn key_of(p: Phase) -> u32 {
    match p {
        Phase::Resolved(id) => id,
        Phase::Admitted(id) => id,
        Phase::Locked(id) => id,
        Phase::Executing(id) => id,
        _ => 0,
    }
}

/// How many requests occupy a key slot.
pub open spec fn count_admitted(s: Seq<Phase>) -> nat
    decreases s.len(),
{
    if s.len() == 0 {
        0
    } else {
        count_admitted(s.drop_last()) + if past_admission(s.last()) {
            1nat
        } else {
            0nat
        }
    }
}

/// Moving one request to another phase changes the count of requests past
/// admission by what the two phases contribute.
proof fn lemma_count_update(s: Seq<Phase>, i: int, p: Phase)
    requires
        0 <= i < s.len(),
    ensures
        count_admitted(s.update(i, p)) + (if past_admission(s[i]) { 1int } else { 0int })
            == count_admitted(s) + (if past_admission(p) { 1int } else { 0int }),
    decreases s.len(),
{
    let t = s.update(i, p);
    if i == s.len() - 1 {
        assert(t.drop_last() =~= s.drop_last());
    } else {
        lemma_count_update(s.drop_last(), i, p);
        assert(t.drop_last() =~= s.drop_last().update(i, p));
    }
}

/// The handle lock is held by request `i`.
pub open spec fn holds(holder: Option<usize>, i: int) -> bool {
    holder matches Some(h) && h == i
}

/// The state of a provider as a value: its keys, its configuration and the
/// phase of every request it has seen.
pub struct ProviderState {
    pub keys: Map<KeyRef, u32>,
    pub provider_id: u8,
    pub capacity: nat,
    pub phases: Seq<Phase>,
}

/// The client-visible result of a sign call, from the buffer the engine wrote
/// into and what the engine reported.
pub open spec fn sign_result_spec(buffer: Seq<u8>, outcome: Result<usize, i32>) -> Result<
    Seq<u8>,
    OpError,
> {
    match outcome {
        Ok(n) => if n <= buffer.len() {
            Ok(buffer.take(n as int))
        } else {
            Err(engine_error_spec(PSA_ERROR_BUFFER_TOO_SMALL))
        },
        Err(status) => Err(engine_error_spec(status)),
    }
}

/// The client-visible result of a verify call, from what the engine reported.
pub open spec fn verify_result_spec(outcome: Result<(), i32>) -> Result<(), OpError> {
    match outcome {
        Ok(()) => Ok(()),
        Err(status) => Err(engine_error_spec(status)),
    }
}

impl ProviderState {
    /// No more requests are past admission than there are slots, and at most
    /// one request holds the handle lock.
    pub open spec fn wf(self) -> bool {
        &&& count_admitted(self.phases) <= self.capacity
        &&& forall|i: int, j: int|
            0 <= i < self.phases.len() && 0 <= j < self.phases.len() && holds_lock(self.phases[i])
                && holds_lock(self.phases[j]) ==> i == j
    }

    /// The state with request `r` moved to phase `p`.
    pub open spec fn set_phase(self, r: int, p: Phase) -> ProviderState {
        ProviderState { phases: self.phases.update(r, p), ..self }
    }

    /// No request holds the handle lock.
    pub open spec fn lock_free(self) -> bool {
        forall|i: int| 0 <= i < self.phases.len() ==> !holds_lock(#[trigger] self.phases[i])
    }

    /// Resolution of request `r` for `key_name` of tenant `app_name`.
    pub open spec fn resolve(self, r: int, app_name: Seq<char>, key_name: Seq<char>) -> ProviderState {
        let k = (app_name, self.provider_id, key_name);
        if self.keys.contains_key(k) {
            self.set_phase(r, Phase::Resolved(self.keys[k]))
        } else {
            self.set_phase(r, Phase::Failed)
        }
    }

    /// A key slot is free.
    pub open spec fn slot_free(self) -> bool {
        count_admitted(self.phases) < self.capacity
    }

    /// An attempt of request `r` to take a key slot.
    pub open spec fn take_slot(self, r: int) -> ProviderState {
        if self.slot_free() {
            self.set_phase(r, Phase::Admitted(key_of(self.phases[r])))
        } else {
            self
        }
    }

    /// An attempt of request `r` to take the handle lock.
    pub open spec fn lock(self, r: int) -> ProviderState {
        if self.lock_free() {
            self.set_phase(r, Phase::Locked(key_of(self.phases[r])))
        } else {
            self
        }
    }

    /// Request `r`, holding the lock, starts its engine call.
    pub open spec fn execute(self, r: int) -> ProviderState {
        self.set_phase(r, Phase::Executing(key_of(self.phases[r])))
    }

    /// The end of request `r`: its lock and its slot are given back.
    pub open spec fn finish(self, r: int, ok: bool) -> ProviderState {
        self.set_phase(r, if ok { Phase::Succeeded } else { Phase::Failed })
    }
}

/// The process-wide context of the asymmetric sign and verify operations: the
/// identity store, the key-slot admission gate and the handle lock, with the
/// phase of each request.
pub struct Provider {
    store: KeyInfoStore,
    provider_id: u8,
    capacity: usize,
    in_use: usize,
    holder: Option<usize>,
    requests: Vec<Phase>,
}

impl View for Provider {
    type V = ProviderState;

    closed spec fn view(&self) -> ProviderState {
        ProviderState {
            keys: self.store@,
            provider_id: self.provider_id,
            capacity: self.capacity as nat,
            phases: self.requests@,
        }
    }
}

impl Provider {
    /// The slot counter and the lock holder agree with the request phases.
    pub closed spec fn inv(&self) -> bool {
        &&& self.in_use == count_admitted(self.requests@)
        &&& self.in_use <= self.capacity
        &&& forall|i: int|
            0 <= i < self.requests@.len() ==> (holds_lock(#[trigger] self.requests@[i])
                <==> holds(self.holder, i))
        &&& self.holder matches Some(h) ==> h < self.requests@.len()
    }

    proof fn lemma_inv_wf(&self)
        requires
            self.inv(),
        ensures
            self@.wf(),
    {
        let s = self.requests@;
        assert forall|i: int, j: int|
            0 <= i < s.len() && 0 <= j < s.len() && holds_lock(s[i]) && holds_lock(
                s[j],
            ) implies i == j by {
            assert(holds(self.holder, i));
            assert(holds(self.holder, j));
        }
    }

    proof fn lemma_lock_free_iff(&self)
        requires
            self.inv(),
        ensures
            self@.lock_free() == (self.holder is None),
    {
        if self.holder is Some {
            let h = self.holder.unwrap();
            assert(holds_lock(self.requests@[h as int]));
            assert(holds_lock(self@.phases[h as int]));
        } else {
            assert forall|i: int| 0 <= i < self@.phases.len() implies !holds_lock(
                #[trigger] self@.phases[i],
            ) by {
                assert(!holds(self.holder, i));
                assert(!holds_lock(self.requests@[i]));
            }
        }
    }

    /// Sets up a provider over `store` with `capacity` key slots.
    pub fn new(store: KeyInfoStore, provider_id: u8, capacity: usize) -> (r: Provider)
        ensures
            r.inv(),
            r@.wf(),
            count_admitted(r@.phases) == 0,
            r@.lock_free(),
            r@.keys == store@,
            r@.provider_id == provider_id,
            r@.capacity == capacity,
            r@.phases.len() == 0,
    {
        Provider { store, provider_id, capacity, in_use: 0, holder: None, requests: Vec::new() }
    }

    /// How many requests occupy a key slot.
    pub fn slots_in_use(&self) -> (r: usize)
        requires
            self.inv(),
        ensures
            r == count_admitted(self@.phases),
    {
        self.in_use
    }

    /// The phase of request `r`.
    pub fn phase(&self, r: usize) -> (p: Phase)
        requires
            r < self@.phases.len(),
        ensures
            p == self@.phases[r as int],
    {
        self.requests[r]
    }

    /// Opens a new request in the `Idle` phase, reusing the place of one that
    /// has ended where there is one.
    pub fn begin(&mut self) -> (r: usize)
        requires
            old(self).inv(),
        ensures
            final(self).inv(),
            final(self)@.wf(),
            count_admitted(final(self)@.phases) == count_admitted(old(self)@.phases),
            final(self)@.lock_free() == old(self)@.lock_free(),
            r < final(self)@.phases.len(),
            r < old(self)@.phases.len() ==> is_terminal(old(self)@.phases[r as int])
                && final(self)@ == old(self)@.set_phase(r as int, Phase::Idle),
            r == old(self)@.phases.len() ==> final(self)@ == (ProviderState {
                phases: old(self)@.phases.push(Phase::Idle),
                ..old(self)@
            }),
            r <= old(self)@.phases.len(),
    {
        let mut i: usize = 0;
        while i < self.requests.len()
            invariant
                i <= self.requests@.len(),
                self == old(self),
                self.inv(),
            decreases self.requests@.len() - i,
        {
            match self.requests[i] {
                Phase::Succeeded | Phase::Failed => {
                    proof {
                        lemma_count_update(self.requests@, i as int, Phase::Idle);
                    }
                    let ghost prev = self.requests@;
                    self.requests.set(i, Phase::Idle);
                    proof {
                        assert forall|j: int| 0 <= j < self.requests@.len() implies (holds_lock(
                            #[trigger] self.requests@[j],
                        ) <==> holds(self.holder, j)) by {
                            if j != i {
                                assert(self.requests@[j] == prev[j]);
                            }
                        }
                        self.lemma_inv_wf();
                        self.lemma_lock_free_iff();
                    }
                    return i;
                },
                _ => {},
            }
            i = i + 1;
        }
        let ghost prev = self.requests@;
        self.requests.push(Phase::Idle);
        proof {
            assert(self.requests@.drop_last() =~= prev);
            assert forall|j: int| 0 <= j < self.requests@.len() implies (holds_lock(
                #[trigger] self.requests@[j],
            ) <==> holds(self.holder, j)) by {
                if j < prev.len() {
                    assert(self.requests@[j] == prev[j]);
                }
            }
            self.lemma_inv_wf();
                        self.lemma_lock_free_iff();
        }
        i
    }

    /// Resolves the key of request `r` to its persistent identifier. The store
    /// is only read; an unknown reference ends the request with
    /// `KeyDoesNotExist`, before any slot or lock is taken.
    pub fn resolve(&mut self, r: usize, app_name: String, key_name: String) -> (res: Result<(), OpError>)
        requires
            old(self).inv(),
            r < old(self)@.phases.len(),
            old(self)@.phases[r as int] == Phase::Idle,
        ensures
            final(self).inv(),
            final(self)@.wf(),
            count_admitted(final(self)@.phases) == count_admitted(old(self)@.phases),
            final(self)@.lock_free() == old(self)@.lock_free(),
            final(self)@ == old(self)@.resolve(r as int, app_name@, key_name@),
            res is Ok == old(self)@.keys.contains_key((app_name@, old(self)@.provider_id, key_name@)),
            res is Err ==> res == Err::<(), OpError>(OpError::KeyDoesNotExist),
    {
        let triple = KeyTriple::new(app_name, self.provider_id, key_name);
        let found = self.store.get_key_id(&triple);
        let next = match found {
            Ok(id) => Phase::Resolved(id),
            Err(_) => Phase::Failed,
        };
        self.set_phase(r, next);
        match found {
            Ok(_) => Ok(()),
            Err(e) => Err(e),
        }
    }

    /// Moves request `r`, which holds neither slot nor lock, to a phase that
    /// holds neither either.
    fn set_phase(&mut self, r: usize, p: Phase)
        requires
            old(self).inv(),
            r < old(self)@.phases.len(),
            !past_admission(old(self)@.phases[r as int]),
            !past_admission(p),
        ensures
            final(self).inv(),
            final(self)@.wf(),
            count_admitted(final(self)@.phases) == count_admitted(old(self)@.phases),
            final(self)@.lock_free() == old(self)@.lock_free(),
            final(self)@ == old(self)@.set_phase(r as int, p),
            final(self).holder == old(self).holder,
            final(self).in_use == old(self).in_use,
    {
        let ghost prev = self.requests@;
        proof {
            lemma_count_update(prev, r as int, p);
        }
        self.requests.set(r, p);
        proof {
            assert forall|j: int| 0 <= j < self.requests@.len() implies (holds_lock(
                #[trigger] self.requests@[j],
            ) <==> holds(self.holder, j)) by {
                if j != r {
                    assert(self.requests@[j] == prev[j]);
                }
            }
            self.lemma_inv_wf();
                        self.lemma_lock_free_iff();
        }
    }

    /// Request `r` tries to take a key slot; it gets one when fewer requests
    /// than the capacity are past admission, and otherwise has to wait.
    pub fn try_acquire_slot(&mut self, r: usize) -> (ok: bool)
        requires
            old(self).inv(),
            r < old(self)@.phases.len(),
            old(self)@.phases[r as int] is Resolved,
        ensures
            final(self).inv(),
            final(self)@.wf(),
            count_admitted(final(self)@.phases) == count_admitted(old(self)@.phases) + if ok {
                1int
            } else {
                0int
            },
            final(self)@.lock_free() == old(self)@.lock_free(),
            ok == old(self)@.slot_free(),
            final(self)@ == old(self)@.take_slot(r as int),
    {
        if self.in_use < self.capacity {
            let id = match self.requests[r] {
                Phase::Resolved(id) => id,
                _ => 0,
            };
            let ghost prev = self.requests@;
            proof {
                lemma_count_update(prev, r as int, Phase::Admitted(id));
            }
            self.requests.set(r, Phase::Admitted(id));
            self.in_use = self.in_use + 1;
            proof {
                assert forall|j: int| 0 <= j < self.requests@.len() implies (holds_lock(
                    #[trigger] self.requests@[j],
                ) <==> holds(self.holder, j)) by {
                    if j != r {
                        assert(self.requests@[j] == prev[j]);
                    }
                }
                self.lemma_inv_wf();
                        self.lemma_lock_free_iff();
            }
            true
        } else {
            false
        }
    }

    /// Request `r`, holding a slot, tries to take the handle lock; it gets it
    /// when no request holds it, and otherwise has to wait.
    pub fn try_lock(&mut self, r: usize) -> (ok: bool)
        requires
            old(self).inv(),
            r < old(self)@.phases.len(),
            old(self)@.phases[r as int] is Admitted,
        ensures
            final(self).inv(),
            final(self)@.wf(),
            count_admitted(final(self)@.phases) == count_admitted(old(self)@.phases),
            ok == old(self)@.lock_free(),
            final(self)@ == old(self)@.lock(r as int),
    {
        proof {
            if self.holder is Some {
                let h = self.holder.unwrap();
                assert(holds_lock(self.requests@[h as int]));
            }
        }
        if self.holder.is_none() {
            let id = match self.requests[r] {
                Phase::Admitted(id) => id,
                _ => 0,
            };
            let ghost prev = self.requests@;
            proof {
                lemma_count_update(prev, r as int, Phase::Locked(id));
            }
            self.requests.set(r, Phase::Locked(id));
            self.holder = Some(r);
            proof {
                assert forall|j: int| 0 <= j < self.requests@.len() implies (holds_lock(
                    #[trigger] self.requests@[j],
                ) <==> holds(self.holder, j)) by {
                    if j != r {
                        assert(self.requests@[j] == prev[j]);
                    }
                }
                self.lemma_inv_wf();
                        self.lemma_lock_free_iff();
            }
            true
        } else {
            false
        }
    }

    /// Request `r`, holding the lock, starts its engine call. This is the one
    /// place where a persistent identifier leaves the provider.
    pub fn execute(&mut self, r: usize) -> (id: u32)
        requires
            old(self).inv(),
            r < old(self)@.phases.len(),
            old(self)@.phases[r as int] is Locked,
        ensures
            final(self).inv(),
            final(self)@.wf(),
            count_admitted(final(self)@.phases) == count_admitted(old(self)@.phases),
            id == key_of(old(self)@.phases[r as int]),
            final(self)@ == old(self)@.execute(r as int),
    {
        let id = match self.requests[r] {
            Phase::Locked(id) => id,
            _ => 0,
        };
        let ghost prev = self.requests@;
        proof {
            lemma_count_update(prev, r as int, Phase::Executing(id));
        }
        self.requests.set(r, Phase::Executing(id));
        proof {
            assert forall|j: int| 0 <= j < self.requests@.len() implies (holds_lock(
                #[trigger] self.requests@[j],
            ) <==> holds(self.holder, j)) by {
                if j != r {
                    assert(self.requests@[j] == prev[j]);
                }
            }
            self.lemma_inv_wf();
                        self.lemma_lock_free_iff();
        }
        id
    }

    /// Ends request `r`'s engine call: the lock and then the slot are given
    /// back, whatever the outcome.
    fn release(&mut self, r: usize, ok: bool)
        requires
            old(self).inv(),
            r < old(self)@.phases.len(),
            old(self)@.phases[r as int] is Executing,
        ensures
            final(self).inv(),
            final(self)@.wf(),
            count_admitted(final(self)@.phases) + 1 == count_admitted(old(self)@.phases),
            final(self)@.lock_free(),
            final(self)@ == old(self)@.finish(r as int, ok),
    {
        let p = if ok {
            Phase::Succeeded
        } else {
            Phase::Failed
        };
        let ghost prev = self.requests@;
        proof {
            lemma_count_update(prev, r as int, p);
            assert(holds(self.holder, r as int));
        }
        self.requests.set(r, p);
        self.holder = None;
        self.in_use = self.in_use - 1;
        proof {
            assert forall|j: int| 0 <= j < self.requests@.len() implies (holds_lock(
                #[trigger] self.requests@[j],
            ) <==> holds(self.holder, j)) by {
                if j != r {
                    assert(self.requests@[j] == prev[j]);
                    assert(!holds(old(self).holder, j));
                }
            }
            self.lemma_inv_wf();
                        self.lemma_lock_free_iff();
        }
    }

    /// Ends sign request `r`. `signature` is the buffer the engine wrote
    /// into and `outcome` what the engine reported: the written length, or
    /// the status of its failure (also of the output-size query).
    pub fn finish_sign(&mut self, r: usize, signature: Vec<u8>, outcome: Result<usize, i32>) -> (res:
        Result<Vec<u8>, OpError>)
        requires
            old(self).inv(),
            r < old(self)@.phases.len(),
            old(self)@.phases[r as int] is Executing,
        ensures
            final(self).inv(),
            final(self)@.wf(),
            count_admitted(final(self)@.phases) + 1 == count_admitted(old(self)@.phases),
            final(self)@.lock_free(),
            final(self)@ == old(self)@.finish(r as int, res is Ok),
            result_view(&res) == sign_result_spec(signature@, outcome),
    {
        let res = truncate_signature(signature, outcome);
        self.release(r, res.is_ok());
        res
    }

    /// Ends verify request `r`, with what the engine reported.
    pub fn finish_verify(&mut self, r: usize, outcome: Result<(), i32>) -> (res: Result<(), OpError>)
        requires
            old(self).inv(),
            r < old(self)@.phases.len(),
            old(self)@.phases[r as int] is Executing,
        ensures
            final(self).inv(),
            final(self)@.wf(),
            count_admitted(final(self)@.phases) + 1 == count_admitted(old(self)@.phases),
            final(self)@.lock_free(),
            final(self)@ == old(self)@.finish(r as int, res is Ok),
            res == verify_result_spec(outcome),
    {
        let res = verify_outcome(outcome);
        self.release(r, res.is_ok());
        res
    }
}

/// A signature result with the signature as a sequence of bytes.
pub open spec fn result_view(r: &Result<Vec<u8>, OpError>) -> Result<Seq<u8>, OpError> {
    match r {
        Ok(v) => Ok(v@),
        Err(e) => Err(*e),
    }
}

/// A zeroed buffer of the size the engine asked for a signature.
pub fn signature_buffer(size: usize) -> (r: Vec<u8>)
    ensures
        r@.len() == size,
        forall|i: int| 0 <= i < size ==> r@[i] == 0u8,
{
    let mut v: Vec<u8> = Vec::new();
    while v.len() < size
        invariant
            v@.len() <= size,
            forall|i: int| 0 <= i < v@.len() ==> v@[i] == 0u8,
        decreases size - v@.len(),
    {
        v.push(0u8);
    }
    v
}

/// Turns what the engine reported for a sign call into the client-visible
/// result: the buffer cut to the written length, or the translated error.
pub fn truncate_signature(signature: Vec<u8>, outcome: Result<usize, i32>) -> (r: Result<
    Vec<u8>,
    OpError,
>)
    ensures
        result_view(&r) == sign_result_spec(signature@, outcome),
        r matches Ok(s) ==> outcome matches Ok(n) && s@.len() == n && n <= signature@.len(),
{
    match outcome {
        Ok(n) => {
            if n <= signature.len() {
                let mut signature = signature;
                signature.truncate(n);
                Ok(signature)
            } else {
                Err(engine_error(PSA_ERROR_BUFFER_TOO_SMALL))
            }
        },
        Err(status) => Err(engine_error(status)),
    }
}

/// Turns what the engine reported for a verify call into the client-visible
/// result: a mismatch is `SignatureInvalid`, kept apart from engine failures.
pub fn verify_outcome(outcome: Result<(), i32>) -> (r: Result<(), OpError>)
    ensures
        r == verify_result_spec(outcome),
{
    match outcome {
        Ok(()) => Ok(()),
        Err(status) => Err(engine_error(status)),
    }
}


/// What a verify request for `key_name` of tenant `app_name` returns, from the
/// provider's keys and what the engine reports.
pub open spec fn verify_request_spec(
    s: ProviderState,
    app_name: Seq<char>,
    key_name: Seq<char>,
    outcome: Result<(), i32>,
) -> Result<(), OpError> {
    if s.keys.contains_key((app_name, s.provider_id, key_name)) {
        verify_result_spec(outcome)
    } else {
        Err(OpError::KeyDoesNotExist)
    }
}

/// What a sign request for `key_name` of tenant `app_name` returns, from the
/// provider's keys, the buffer the engine wrote into and what it reported.
pub open spec fn sign_request_spec(
    s: ProviderState,
    app_name: Seq<char>,
    key_name: Seq<char>,
    buffer: Seq<u8>,
    outcome: Result<usize, i32>,
) -> Result<Seq<u8>, OpError> {
    if s.keys.contains_key((app_name, s.provider_id, key_name)) {
        sign_result_spec(buffer, outcome)
    } else {
        Err(OpError::KeyDoesNotExist)
    }
}

/// The state after request `r` has run a whole verify call: resolved,
/// admitted, locked, executed and finished.
pub open spec fn verify_run(
    s: ProviderState,
    r: int,
    app_name: Seq<char>,
    key_name: Seq<char>,
    outcome: Result<(), i32>,
) -> ProviderState {
    s.resolve(r, app_name, key_name).take_slot(r).lock(r).execute(r).finish(
        r,
        verify_result_spec(outcome) is Ok,
    )
}

/// In every state of a provider, no more requests are past admission than
/// there are key slots.
pub proof fn lemma_admitted_within_capacity(s: ProviderState)
    requires
        s.wf(),
    ensures
        count_admitted(s.phases) <= s.capacity,
{
}

/// Every step of a request keeps the number of requests past admission
/// within the capacity, and the handle lock with at most one holder.
pub proof fn lemma_steps_keep_bounds(s: ProviderState, r: int, app_name: Seq<char>, key_name: Seq<char>, ok: bool)
    requires
        s.wf(),
        0 <= r < s.phases.len(),
    ensures
        s.phases[r] == Phase::Idle ==> s.resolve(r, app_name, key_name).wf(),
        s.phases[r] is Resolved ==> s.take_slot(r).wf(),
        s.phases[r] is Admitted ==> s.lock(r).wf(),
        s.phases[r] is Locked ==> s.execute(r).wf(),
        s.phases[r] is Executing ==> s.finish(r, ok).wf(),
{
    let ph = s.phases;
    if ph[r] == Phase::Idle {
        let t = s.resolve(r, app_name, key_name);
        lemma_count_update(ph, r, t.phases[r]);
        lemma_exclusive_after(s, r, t.phases[r]);
    }
    if ph[r] is Resolved {
        lemma_count_update(ph, r, Phase::Admitted(key_of(ph[r])));
        lemma_exclusive_after(s, r, Phase::Admitted(key_of(ph[r])));
    }
    if ph[r] is Admitted {
        lemma_count_update(ph, r, Phase::Locked(key_of(ph[r])));
        if s.lock_free() {
            let t = s.lock(r);
            assert forall|i: int, j: int|
                0 <= i < t.phases.len() && 0 <= j < t.phases.len() && holds_lock(t.phases[i])
                    && holds_lock(t.phases[j]) implies i == j by {
                if i != r {
                    assert(ph[i] == t.phases[i]);
                }
                if j != r {
                    assert(ph[j] == t.phases[j]);
                }
            }
        }
    }
    if ph[r] is Locked {
        lemma_count_update(ph, r, Phase::Executing(key_of(ph[r])));
        let t = s.execute(r);
        assert forall|i: int, j: int|
            0 <= i < t.phases.len() && 0 <= j < t.phases.len() && holds_lock(t.phases[i])
                && holds_lock(t.phases[j]) implies i == j by {
            if i != r {
                assert(ph[i] == t.phases[i]);
            }
            if j != r {
                assert(ph[j] == t.phases[j]);
            }
        }
    }
    if ph[r] is Executing {
        let p = if ok {
            Phase::Succeeded
        } else {
            Phase::Failed
        };
        lemma_count_update(ph, r, p);
        lemma_exclusive_after(s, r, p);
    }
}

/// Setting request `r` to a phase that holds no lock keeps the lock with at
/// most one holder.
proof fn lemma_exclusive_after(s: ProviderState, r: int, p: Phase)
    requires
        s.wf(),
        0 <= r < s.phases.len(),
        !holds_lock(p),
    ensures
        forall|i: int, j: int|
            0 <= i < s.phases.len() && 0 <= j < s.phases.len() && holds_lock(
                s.phases.update(r, p)[i],
            ) && holds_lock(s.phases.update(r, p)[j]) ==> i == j,
{
}

/// At any time at most one request holds the handle lock, so engine calls
/// never overlap, whatever keys the requests are for.
pub proof fn lemma_engine_calls_serialized(s: ProviderState, i: int, j: int)
    requires
        s.wf(),
        0 <= i < s.phases.len(),
        0 <= j < s.phases.len(),
        s.phases[i] is Executing,
        s.phases[j] is Executing || s.phases[j] is Locked,
    ensures
        i == j,
{
}

/// The signature returned for a buffer of the engine's output size is never
/// longer than that size, and is exactly the length the engine wrote.
pub proof fn lemma_signature_within_output_size(size: nat, buffer: Seq<u8>, written: usize)
    requires
        buffer.len() == size,
    ensures
        written <= size ==> sign_result_spec(buffer, Ok(written)) == Ok::<Seq<u8>, OpError>(
            buffer.take(written as int),
        ) && buffer.take(written as int).len() == written,
        sign_result_spec(buffer, Ok(written)) matches Ok(sig) ==> sig.len() == written
            && written <= size,
{
}

/// Verifying the same hash and signature with the same key again gives the
/// same result: a verify call leaves the keys, the slots in use and the lock
/// as it found them.
pub proof fn lemma_verify_repeatable(
    s: ProviderState,
    r: int,
    app_name: Seq<char>,
    key_name: Seq<char>,
    outcome: Result<(), i32>,
)
    requires
        s.wf(),
        0 <= r < s.phases.len(),
        s.phases[r] == Phase::Idle,
        s.slot_free(),
        s.lock_free(),
        s.keys.contains_key((app_name, s.provider_id, key_name)),
    ensures
        verify_run(s, r, app_name, key_name, outcome).keys == s.keys,
        count_admitted(verify_run(s, r, app_name, key_name, outcome).phases) == count_admitted(
            s.phases,
        ),
        verify_run(s, r, app_name, key_name, outcome).lock_free(),
        verify_run(s, r, app_name, key_name, outcome).phases[r] == (if verify_result_spec(
            outcome,
        ) is Ok {
            Phase::Succeeded
        } else {
            Phase::Failed
        }),
        verify_request_spec(verify_run(s, r, app_name, key_name, outcome), app_name, key_name, outcome)
            == verify_request_spec(s, app_name, key_name, outcome),
{
    let k = (app_name, s.provider_id, key_name);
    let id = s.keys[k];
    let s1 = s.resolve(r, app_name, key_name);
    lemma_count_update(s.phases, r, Phase::Resolved(id));
    let s2 = s1.take_slot(r);
    lemma_count_update(s1.phases, r, Phase::Admitted(id));
    assert(s1.lock_free()) by {
        assert forall|i: int| 0 <= i < s1.phases.len() implies !holds_lock(#[trigger] s1.phases[i]) by {
            if i != r {
                assert(s1.phases[i] == s.phases[i]);
            }
        }
    }
    assert(s2.lock_free()) by {
        assert forall|i: int| 0 <= i < s2.phases.len() implies !holds_lock(#[trigger] s2.phases[i]) by {
            if i != r {
                assert(s2.phases[i] == s.phases[i]);
            }
        }
    }
    let s3 = s2.lock(r);
    lemma_count_update(s2.phases, r, Phase::Locked(id));
    let s4 = s3.execute(r);
    lemma_count_update(s3.phases, r, Phase::Executing(id));
    let ok = verify_result_spec(outcome) is Ok;
    let p = if ok {
        Phase::Succeeded
    } else {
        Phase::Failed
    };
    lemma_count_update(s4.phases, r, p);
    let t = s4.finish(r, ok);
    assert forall|i: int| 0 <= i < t.phases.len() implies !holds_lock(#[trigger] t.phases[i]) by {
        if i != r {
            assert(t.phases[i] == s.phases[i]);
        }
    }
}

/// Signing a hash and then verifying that signature with the same key
/// succeeds, when the engine signs and then accepts its own signature.
pub proof fn lemma_sign_then_verify(
    s: ProviderState,
    app_name: Seq<char>,
    key_name: Seq<char>,
    buffer: Seq<u8>,
    written: usize,
)
    requires
        s.keys.contains_key((app_name, s.provider_id, key_name)),
        written <= buffer.len(),
    ensures
        sign_request_spec(s, app_name, key_name, buffer, Ok(written)) == Ok::<Seq<u8>, OpError>(
            buffer.take(written as int),
        ),
        verify_request_spec(s, app_name, key_name, Ok(())) == Ok::<(), OpError>(()),
{
}

/// An unknown reference ends its request with `KeyDoesNotExist` at
/// resolution: no slot and no lock is taken, and the request is in no phase
/// from which the engine can be reached.
pub proof fn lemma_unknown_reference(s: ProviderState, r: int, app_name: Seq<char>, key_name: Seq<char>)
    requires
        s.wf(),
        0 <= r < s.phases.len(),
        s.phases[r] == Phase::Idle,
        !s.keys.contains_key((app_name, s.provider_id, key_name)),
    ensures
        s.resolve(r, app_name, key_name).phases[r] == Phase::Failed,
        count_admitted(s.resolve(r, app_name, key_name).phases) == count_admitted(s.phases),
        s.resolve(r, app_name, key_name).lock_free() == s.lock_free(),
        verify_request_spec(s, app_name, key_name, Ok(())) == Err::<(), OpError>(
            OpError::KeyDoesNotExist,
        ),
        forall|buffer: Seq<u8>, outcome: Result<usize, i32>|
            sign_request_spec(s, app_name, key_name, buffer, outcome) == Err::<Seq<u8>, OpError>(
                OpError::KeyDoesNotExist,
            ),
{
    let t = s.resolve(r, app_name, key_name);
    lemma_count_update(s.phases, r, Phase::Failed);
    if s.lock_free() {
        assert forall|i: int| 0 <= i < t.phases.len() implies !holds_lock(#[trigger] t.phases[i]) by {
            if i != r {
                assert(t.phases[i] == s.phases[i]);
            }
        }
    } else {
        let i = choose|i: int| 0 <= i < s.phases.len() && holds_lock(#[trigger] s.phases[i]);
        assert(t.phases[i] == s.phases[i]);
    }
}

} // verus!
