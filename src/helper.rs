//! Serving other workers' batch requests: whom to answer, and with which batches.
use vstd::prelude::*;
use crate::committee::{Address, Committee, ConfigError, is_worker_of, has_worker};
use crate::types::{PublicKey, WorkerId};

verus! {

/// What the store gave back for one requested digest.
#[derive(Clone, Debug)]
pub enum StoreRead {
    /// The batch is held; its bytes.
    Found(Vec<u8>),
    /// The batch is not held.
    Missing,
    /// The store failed to answer.
    Failed,
}

/// Why a batch request is dropped.
#[derive(Clone, Copy, Debug, PartialEq, Eq)]
pub enum HelperError {
    /// The requester is not a member of the committee.
    UnknownAuthority,
    /// The requester has no worker with this worker's id.
    UnknownWorker,
}

/// The batches that were found, in request order.
pub open spec fn found_batches(reads: Seq<StoreRead>) -> Seq<Vec<u8>>
    decreases reads.len(),
{
    if reads.len() == 0 {
        Seq::empty()
    } else {
        let rest = found_batches(reads.skip(1));
        match reads[0] {
            StoreRead::Found(b) => seq![b] + rest,
            _ => rest,
        }
    }
}

/// Number of batches that were found.
pub open spec fn found_count(reads: Seq<StoreRead>) -> nat
    decreases reads.len(),
{
    if reads.len() == 0 {
        0
    } else {
        found_count(reads.skip(1)) + if reads[0] is Found {
            1nat
        } else {
            0nat
        }
    }
}

/// Answers other authorities' requests for batches held by worker `id`.
pub struct Helper {
    id: WorkerId,
    committee: Committee,
}

impl Helper {
    /// The id of the worker this helper serves for.
    pub closed spec fn id(&self) -> WorkerId {
        self.id
    }

    pub closed spec fn committee(&self) -> Committee {
        self.committee
    }

    pub fn new(id: WorkerId, committee: Committee) -> (r: Self)
        ensures
            r.id() == id,
            r.committee() == committee,
    {
        Helper { id, committee }
    }

    /// Plans the reply to a request from `origin`, given what the store gave
    /// back for each requested digest in order: the address of the
    /// requester's worker of the same id, and the batches that were found,
    /// one message each. Missing batches and store failures are skipped.
    pub fn reply(&self, origin: &PublicKey, reads: Vec<StoreRead>) -> (r: Result<
        (Address, Vec<Vec<u8>>),
        HelperError,
    >)
        requires
            self.committee().wf(),
        ensures
            r == Err::<(Address, Vec<Vec<u8>>), HelperError>(HelperError::UnknownAuthority)
                <==> !self.committee().keys().contains(*origin),
            r == Err::<(Address, Vec<Vec<u8>>), HelperError>(HelperError::UnknownWorker) <==> (
            self.committee().keys().contains(*origin) && !has_worker(
                self.committee().members(),
                *origin,
                self.id(),
            )),
            r is Ok ==> {
                &&& exists|w: crate::committee::WorkerAddresses|
                    is_worker_of(self.committee().members(), *origin, self.id(), w)
                        && w.worker_to_worker == r->Ok_0.0
                &&& r->Ok_0.1@ == found_batches(reads@)
                &&& r->Ok_0.1@.len() == found_count(reads@)
            },
    {
        let address = match self.committee.worker(origin, self.id) {
            Ok(w) => {
                assert(is_worker_of(self.committee().members(), *origin, self.id(), w));
                w.worker_to_worker
            },
            Err(ConfigError::NotInCommittee) => {
                return Err(HelperError::UnknownAuthority);
            },
            Err(ConfigError::UnknownWorker) => {
                return Err(HelperError::UnknownWorker);
            },
        };
        let batches = found_only(reads);
        Ok((address, batches))
    }
}

/// The batches that were found, in request order.
pub fn found_only(reads: Vec<StoreRead>) -> (r: Vec<Vec<u8>>)
    ensures
        r@ == found_batches(reads@),
        r@.len() == found_count(reads@),
{
    let ghost orig = reads@;
    let mut rest = reads;
    let mut out: Vec<Vec<u8>> = Vec::new();
    proof {
        lemma_found_count(orig);
        assert(out@ + found_batches(rest@) =~= found_batches(orig));
    }
    while rest.len() > 0
        invariant
            out@ + found_batches(rest@) == found_batches(orig),
        decreases rest@.len(),
    {
        let ghost before = rest@;
        let item = rest.remove(0);
        assert(rest@ =~= before.skip(1));
        match item {
            StoreRead::Found(b) => {
                assert(out@.push(b) + found_batches(rest@) =~= out@ + (seq![b] + found_batches(rest@)));
                out.push(b);
            },
            _ => {},
        }
    }
    assert(out@ + found_batches(rest@) =~= out@);
    proof {
        lemma_found_count(orig);
    }
    out
}

/// There are as many found batches as reads that found one.
pub proof fn lemma_found_count(reads: Seq<StoreRead>)
    ensures
        found_batches(reads).len() == found_count(reads),
    decreases reads.len(),
{
    if reads.len() > 0 {
        lemma_found_count(reads.skip(1));
    }
}

} // verus!
