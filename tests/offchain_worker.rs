use substrate_client::offchain::{
    OffchainWorkerConfig, OffchainWorkerEnabled, OffchainWorkerParams, Roles, ROLE_AUTHORITY,
    ROLE_FULL, ROLE_LIGHT,
};

fn run(enabled: OffchainWorkerEnabled, allow: bool, bits: u8) -> OffchainWorkerConfig {
    let params = OffchainWorkerParams { enabled, allow_runtime_write_to_offchain_worker_db: allow };
    let mut config = OffchainWorkerConfig { enabled: false, allow_runtime_write_to_ocw_db: true };
    params.update_config(&mut config, Roles { bits });
    config
}

#[test]
fn workers_when_validating_follow_authority_role() {
    let on = run(OffchainWorkerEnabled::WhenValidating, true, ROLE_AUTHORITY);
    assert_eq!(on, OffchainWorkerConfig { enabled: true, allow_runtime_write_to_ocw_db: true });
    let full = run(OffchainWorkerEnabled::WhenValidating, true, ROLE_FULL);
    assert_eq!(full, OffchainWorkerConfig { enabled: false, allow_runtime_write_to_ocw_db: false });
    let light = run(OffchainWorkerEnabled::WhenValidating, false, ROLE_LIGHT);
    assert_eq!(light, OffchainWorkerConfig { enabled: false, allow_runtime_write_to_ocw_db: false });
}

#[test]
fn workers_always_and_never() {
    let always = run(OffchainWorkerEnabled::Always, false, ROLE_LIGHT);
    assert_eq!(always, OffchainWorkerConfig { enabled: true, allow_runtime_write_to_ocw_db: false });
    let always_db = run(OffchainWorkerEnabled::Always, true, ROLE_FULL);
    assert_eq!(always_db, OffchainWorkerConfig { enabled: true, allow_runtime_write_to_ocw_db: true });
    let never = run(OffchainWorkerEnabled::Never, true, ROLE_AUTHORITY);
    assert_eq!(never, OffchainWorkerConfig { enabled: false, allow_runtime_write_to_ocw_db: false });
}
