//! The outcome of running a certificate verification job: the process exit
//! code and the JSON result envelope.
use crate::certificate_verification_result::{envelope_json, CertificateVerificationJobResultEnvelope};
use vstd::prelude::*;

verus! {

/// The exit code of a job whose certificate was rejected.
pub const CERTIFICATE_VERIFICATION_REJECTED_EXIT_CODE: u8 = 16;

/// The exit code of a job that could not be run.
pub const CERTIFICATE_VERIFICATION_ERROR_EXIT_CODE: u8 = 2;

#[derive(Debug, Clone, PartialEq, Eq)]
pub struct CertificateVerificationJobJsonRun {
    pub exit_code: u8,
    pub envelope: CertificateVerificationJobResultEnvelope,
}

impl CertificateVerificationJobJsonRun {
    /// The run's JSON document: its envelope.
    pub fn to_json(&self) -> (json: String)
        ensures
            json@ == envelope_json(self.envelope),
    {
        self.envelope.to_json()
    }
}

} // verus!
