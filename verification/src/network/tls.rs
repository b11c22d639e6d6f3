//! TLS material as bytes.

use crate::bytes::copy_bytes;
use crate::error;
use crate::error::{ErrorView, QuePaxaError, Result};
use crate::text;
use crate::text::numbered;
use vstd::prelude::*;

verus! {

/// A certificate chain and its private key.
pub struct TlsIdentity {
    pub certificate_chain_der: Vec<Vec<u8>>,
    pub private_key_pkcs8_der: Vec<u8>,
}

impl TlsIdentity {
    /// A description for logs. It names how long the chain is and depends on
    /// nothing else: no key material shows in it.
    pub fn debug_text(&self) -> (text: String)
        ensures
            text@ == "TlsIdentity { certificate_chain_len: "@ + text::decimal(
                self.certificate_chain_der@.len(),
            ) + ", private_key_pkcs8_der: \"[redacted]\" }"@,
    {
        numbered(
            "TlsIdentity { certificate_chain_len: ",
            self.certificate_chain_der.len() as u64,
            ", private_key_pkcs8_der: \"[redacted]\" }",
        )
    }
}

impl Clone for TlsIdentity {
    fn clone(&self) -> (copy: Self)
        ensures
            copy.private_key_pkcs8_der@ == self.private_key_pkcs8_der@,
            copy.certificate_chain_der@.len() == self.certificate_chain_der@.len(),
            forall|i: int|
                0 <= i < self.certificate_chain_der@.len() ==> (
                #[trigger] copy.certificate_chain_der@[i])@ == self.certificate_chain_der@[i]@,
    {
        let mut chain: Vec<Vec<u8>> = Vec::new();
        let mut i: usize = 0;
        while i < self.certificate_chain_der.len()
            invariant
                i <= self.certificate_chain_der@.len(),
                chain@.len() == i,
                forall|j: int|
                    0 <= j < i ==> (#[trigger] chain@[j])@ == self.certificate_chain_der@[j]@,
            decreases self.certificate_chain_der@.len() - i,
        {
            chain.push(copy_bytes(self.certificate_chain_der[i].as_slice()));
            i += 1;
        }
        TlsIdentity {
            certificate_chain_der: chain,
            private_key_pkcs8_der: copy_bytes(self.private_key_pkcs8_der.as_slice()),
        }
    }
}

/// Checks that some certificate authority is trusted.
pub fn require_roots(count: usize) -> (checked: Result<()>)
    ensures
        error::outcome(checked) == if count == 0 {
            Err::<(), ErrorView>(
                ErrorView::TransportError("at least one trusted CA certificate is required"@),
            )
        } else {
            Ok(())
        },
{
    if count == 0 {
        return Err(
            QuePaxaError::TransportError(
                "at least one trusted CA certificate is required".to_owned(),
            ),
        );
    }
    Ok(())
}

} // verus!
