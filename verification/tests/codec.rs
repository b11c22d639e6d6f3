use rust_quepaxa::network::{
    PostcardRecorderCodec, PostcardRuntimeCodec, PostcardStateTransferCodec, STORAGE_VERSION,
};
use rust_quepaxa::{
    ClusterIdentity, OrdMap, OrdSet, ProtocolIdentity, QuePaxaError, RecorderSnapshot,
    ReplicaConfig, ReplicaCore, ReplicaId, ReplicaSnapshot, RuntimeSnapshot, SlotIndex,
    StateTransferSnapshot,
};

type Members = (Vec<u64>, u64, u64);
type Replica = (Vec<u64>, u64, u64, u64);

fn cluster_parts(cluster: &ClusterIdentity) -> Members {
    (
        cluster.members().iter().map(|member| member.get()).collect(),
        cluster.max_faults() as u64,
        cluster.epoch(),
    )
}

fn cluster_of(parts: Members) -> ClusterIdentity {
    ClusterIdentity::stable(
        parts.2,
        parts.0.into_iter().map(ReplicaId::new).collect(),
        parts.1 as usize,
    )
    .unwrap()
}

fn recorder_payload(snapshot: &RecorderSnapshot<u64>) -> Vec<u8> {
    assert!(snapshot.slots.is_empty() && snapshot.decisions.is_empty());
    postcard::to_allocvec(&(
        cluster_parts(&snapshot.cluster),
        snapshot.pruned_through.get(),
    ))
    .unwrap()
}

fn recorder_of(payload: &[u8]) -> RecorderSnapshot<u64> {
    let (cluster, pruned): (Members, u64) = postcard::from_bytes(payload).unwrap();
    RecorderSnapshot {
        cluster: cluster_of(cluster),
        slots: OrdMap::new(),
        round_one_leaders: OrdMap::new(),
        decisions: OrdMap::new(),
        pruned_through: SlotIndex::new(pruned),
    }
}

fn runtime_parts(snapshot: &RuntimeSnapshot<u64>) -> (Members, (u64, bool), Replica, u64) {
    assert!(snapshot.decisions.is_empty() && snapshot.pending.is_empty());
    (
        cluster_parts(&snapshot.cluster),
        (
            snapshot.protocol.epoch_size,
            snapshot.protocol.auto_schedules,
        ),
        (
            snapshot.replica.pending.clone(),
            snapshot.replica.last_proposed.get(),
            snapshot.replica.next_commit.get(),
            snapshot.replica.checkpointed_through.get(),
        ),
        snapshot.stats_through.get(),
    )
}

fn runtime_of(
    parts: (Members, (u64, bool), Replica, u64),
    fresh: &ReplicaSnapshot<u64>,
) -> RuntimeSnapshot<u64> {
    let (cluster, protocol, replica, stats_through) = parts;
    RuntimeSnapshot {
        cluster: cluster_of(cluster),
        protocol: ProtocolIdentity {
            epoch_size: protocol.0,
            auto_schedules: protocol.1,
        },
        replica: ReplicaSnapshot {
            log: fresh.log.clone(),
            pending: replica.0,
            last_proposed: SlotIndex::new(replica.1),
            next_commit: SlotIndex::new(replica.2),
            checkpointed_through: SlotIndex::new(replica.3),
            seen_value_ids: OrdSet::new(),
        },
        decisions: OrdMap::new(),
        schedules: OrdMap::new(),
        pending: OrdMap::new(),
        executed: OrdSet::new(),
        notified: OrdSet::new(),
        announced_to: OrdMap::new(),
        epoch_stats: OrdMap::new(),
        stats_through: SlotIndex::new(stats_through),
    }
}

fn empty_recorder() -> RecorderSnapshot<u64> {
    RecorderSnapshot {
        cluster: ClusterIdentity::new(vec![ReplicaId::new(1)], 0).unwrap(),
        slots: OrdMap::new(),
        round_one_leaders: OrdMap::new(),
        decisions: OrdMap::new(),
        pruned_through: SlotIndex::genesis(),
    }
}

#[test]
fn postcard_codecs_round_trip_versioned_snapshots() {
    let cluster = ClusterIdentity::new(vec![ReplicaId::new(1)], 0).unwrap();
    let recorder = empty_recorder();
    let recorder_codec = PostcardRecorderCodec::default();
    let recorder_bytes = recorder_codec.encode(&recorder_payload(&recorder)).unwrap();
    assert_eq!(
        recorder_of(&recorder_codec.decode(&recorder_bytes).unwrap()),
        recorder
    );

    let replica: ReplicaSnapshot<u64> = ReplicaCore::new(ReplicaConfig::default()).snapshot();
    let runtime = RuntimeSnapshot::<u64> {
        cluster,
        protocol: ProtocolIdentity {
            epoch_size: 16,
            auto_schedules: false,
        },
        replica: replica.clone(),
        decisions: OrdMap::new(),
        schedules: OrdMap::new(),
        pending: OrdMap::new(),
        executed: OrdSet::new(),
        notified: OrdSet::new(),
        announced_to: OrdMap::new(),
        epoch_stats: OrdMap::new(),
        stats_through: SlotIndex::genesis(),
    };
    let runtime_codec = PostcardRuntimeCodec::default();
    let runtime_payload = postcard::to_allocvec(&runtime_parts(&runtime)).unwrap();
    let runtime_bytes = runtime_codec.encode(&runtime_payload).unwrap();
    assert_eq!(
        runtime_of(
            postcard::from_bytes(&runtime_codec.decode(&runtime_bytes).unwrap()).unwrap(),
            &replica
        ),
        runtime
    );

    let transfer = StateTransferSnapshot {
        through: SlotIndex::genesis(),
        checkpointed_value_ids: vec![7],
        application_checkpoint: vec![1, 2, 3],
        runtime,
    };
    let transfer_codec = PostcardStateTransferCodec::default();
    let transfer_payload = postcard::to_allocvec(&(
        transfer.through.get(),
        &transfer.checkpointed_value_ids,
        &transfer.application_checkpoint,
        runtime_parts(&transfer.runtime),
    ))
    .unwrap();
    let transfer_bytes = transfer_codec.encode(&transfer_payload).unwrap();
    let read: (
        u64,
        Vec<u64>,
        Vec<u8>,
        (Members, (u64, bool), Replica, u64),
    ) = postcard::from_bytes(&transfer_codec.decode(&transfer_bytes).unwrap()).unwrap();
    assert_eq!(
        StateTransferSnapshot {
            through: SlotIndex::new(read.0),
            checkpointed_value_ids: read.1,
            application_checkpoint: read.2,
            runtime: runtime_of(read.3, &replica),
        },
        transfer
    );
}

#[test]
fn postcard_codec_rejects_an_unknown_storage_version() {
    let codec = PostcardRecorderCodec::default();
    let mut bytes = codec.encode(&recorder_payload(&empty_recorder())).unwrap();
    bytes[0] = STORAGE_VERSION as u8 + 1;

    assert!(matches!(
        codec.decode(&bytes),
        Err(QuePaxaError::StorageError(_))
    ));
    assert_eq!(
        codec.decode(&bytes).unwrap_err(),
        QuePaxaError::StorageError("unsupported snapshot version 6".to_string())
    );
}

#[test]
fn postcard_codec_rejects_checksum_corruption() {
    let codec = PostcardRecorderCodec::default();
    let mut bytes = codec.encode(&recorder_payload(&empty_recorder())).unwrap();
    let last = bytes.len() - 1;
    bytes[last] ^= 1;

    assert!(matches!(
        codec.decode(&bytes),
        Err(QuePaxaError::StorageError(_))
    ));
    assert_eq!(
        codec.decode(&bytes).unwrap_err(),
        QuePaxaError::StorageError("snapshot checksum verification failed".to_string())
    );
}

#[test]
fn stored_bytes_are_an_envelope_with_a_digest() {
    let payload = vec![9u8, 8, 7];
    let bytes = PostcardRuntimeCodec::default().encode(&payload).unwrap();
    let digest: [u8; 32] = <sha2::Sha256 as sha2::Digest>::digest(&payload).into();
    assert_eq!(bytes[0], 5);
    assert_eq!(&bytes[1..33], &digest[..]);
    assert_eq!(bytes[33], 3);
    assert_eq!(&bytes[34..], &payload[..]);
    let read: (u16, [u8; 32], Vec<u8>) = postcard::from_bytes(&bytes).unwrap();
    assert_eq!(read, (5, digest, payload));
}

#[test]
fn long_payloads_have_long_lengths() {
    let payload: Vec<u8> = (0..1000u32).map(|i| i as u8).collect();
    let codec = PostcardStateTransferCodec::default();
    let bytes = codec.encode(&payload).unwrap();
    assert_eq!(&bytes[33..35], &[0xE8, 0x07]);
    assert_eq!(codec.decode(&bytes).unwrap(), payload);
}

#[test]
fn codecs_hold_snapshots_to_their_limit() {
    assert_eq!(
        PostcardRecorderCodec::default()
            .with_max_snapshot_bytes(0)
            .unwrap_err(),
        QuePaxaError::StorageError("maximum snapshot size must be non-zero".to_string())
    );
    let codec = PostcardRecorderCodec::default()
        .with_max_snapshot_bytes(36)
        .unwrap();
    assert_eq!(codec.encode(&[1, 2]).unwrap().len(), 36);
    assert_eq!(
        codec.encode(&[1, 2, 3]).unwrap_err(),
        QuePaxaError::StorageError(
            "encoded snapshot is 37 bytes, exceeding the configured limit 36".to_string()
        )
    );
    assert_eq!(
        codec.decode(&[]).unwrap_err(),
        QuePaxaError::StorageError("snapshot size 0 is outside the accepted range".to_string())
    );
    assert_eq!(
        codec.decode(&[0; 37]).unwrap_err(),
        QuePaxaError::StorageError("snapshot size 37 is outside the accepted range".to_string())
    );
}

#[test]
fn torn_snapshots_are_malformed() {
    let codec = PostcardRecorderCodec::default();
    let bytes = codec.encode(&[1, 2, 3]).unwrap();
    for end in 1..bytes.len() {
        let refusal = codec.decode(&bytes[..end]).unwrap_err();
        let expected = postcard::from_bytes::<(u16, [u8; 32], Vec<u8>)>(&bytes[..end])
            .unwrap_err()
            .to_string();
        assert_eq!(
            refusal,
            QuePaxaError::StorageError(format!("snapshot decoding failed: {expected}"))
        );
    }
    let mut longer = bytes.clone();
    longer.push(0);
    assert_eq!(codec.decode(&longer).unwrap(), vec![1, 2, 3]);
}

#[test]
fn overlong_numbers_are_malformed() {
    let codec = PostcardRecorderCodec::default();
    for head in [vec![0x85u8, 0x80, 0x04], vec![0x85, 0x80, 0x80, 0x01]] {
        let mut bytes = head;
        bytes.extend([0u8; 40]);
        let read = postcard::from_bytes::<(u16, [u8; 32], Vec<u8>)>(&bytes);
        match read {
            Ok(_) => unreachable!(),
            Err(complaint) => assert_eq!(
                codec.decode(&bytes).unwrap_err(),
                QuePaxaError::StorageError(format!("snapshot decoding failed: {complaint}"))
            ),
        }
    }
}
