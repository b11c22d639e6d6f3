use rust_quepaxa::network::tls::require_roots;
use rust_quepaxa::network::TlsIdentity;
use rust_quepaxa::QuePaxaError;

#[test]
fn tls_identity_debug_output_redacts_private_key_material() {
    let identity = TlsIdentity {
        certificate_chain_der: vec![vec![1]],
        private_key_pkcs8_der: vec![91, 92, 93],
    };
    let output = identity.debug_text();

    assert!(output.contains("[redacted]"));
    assert!(!output.contains("91"));
    assert!(!output.contains("92"));
    assert!(!output.contains("93"));
}

#[test]
fn a_description_names_the_length_of_the_chain() {
    let identity = TlsIdentity {
        certificate_chain_der: vec![vec![1], vec![2], vec![3]],
        private_key_pkcs8_der: vec![1],
    };
    assert_eq!(
        identity.clone().debug_text(),
        "TlsIdentity { certificate_chain_len: 3, private_key_pkcs8_der: \"[redacted]\" }"
    );
}

#[test]
fn some_authority_must_be_trusted() {
    assert_eq!(
        require_roots(0).unwrap_err(),
        QuePaxaError::TransportError("at least one trusted CA certificate is required".to_string())
    );
    assert!(require_roots(2).is_ok());
}
