use vstd::prelude::*;

verus! {

/// Why a backend declines a proving request.
#[derive(Clone, Copy, Debug, PartialEq, Eq, Structural)]
pub enum BackendError {
    /// The request carries a previous proof, and this backend cannot aggregate.
    AggregationUnsupported,
    /// This backend produces no proofs.
    ProverUnavailable,
}

/// A stand-in backend for tests: it accepts the interface and declines
/// every proving request, with a distinct error for aggregation.
#[derive(Clone, Copy, Debug, PartialEq, Eq, Structural)]
pub struct BBergMock;

impl BBergMock {
    /// A mock for circuits of `degree` rows; the degree is not used.
    pub fn new(degree: u64) -> (r: Self)
        ensures
            r == BBergMock,
    {
        BBergMock
    }

    /// Declines the request: aggregation (a previous proof) is unsupported,
    /// and otherwise no prover is available.
    pub fn prove(
        &self,
        fixed: &Vec<(String, Vec<u64>)>,
        witness: &Vec<(String, Vec<u64>)>,
        prev_proof: Option<Vec<u8>>,
        bname: Option<String>,
    ) -> (r: Result<(Option<Vec<u8>>, Option<String>), BackendError>)
        ensures
            prev_proof is Some ==> r == Err::<(Option<Vec<u8>>, Option<String>), BackendError>(
                BackendError::AggregationUnsupported,
            ),
            prev_proof is None ==> r == Err::<(Option<Vec<u8>>, Option<String>), BackendError>(
                BackendError::ProverUnavailable,
            ),
    {
        if prev_proof.is_some() {
            return Err(BackendError::AggregationUnsupported);
        }
        Err(BackendError::ProverUnavailable)
    }
}

} // verus!
