use symphony_staking::claims::Claims;
use symphony_staking::denom::{validate_denom_exists, DenomError};
use symphony_staking::duration::{
    validate_duration, Duration, Expiration, UnboundingDurationError,
};
use symphony_staking::snapmap::SnapshotMap;
use symphony_staking::snapshot::Changelog;
use symphony_staking::types::BlockInfo;

#[test]
fn changelog_reads_value_in_force() {
    let mut log: Changelog<u128> = Changelog::new();
    assert!(log.load().is_none());
    assert!(log.load_at_height(5).is_none());

    log.save(3, 30);
    log.save(7, 70);

    assert_eq!(log.load().copied(), Some(70));
    assert!(log.load_at_height(2).is_none());
    assert_eq!(log.load_at_height(3).copied(), Some(30));
    assert_eq!(log.load_at_height(6).copied(), Some(30));
    assert_eq!(log.load_at_height(7).copied(), Some(70));
    assert_eq!(log.load_at_height(u64::MAX).copied(), Some(70));
}

#[test]
fn changelog_second_write_at_same_height_supersedes() {
    let mut log: Changelog<u128> = Changelog::new();
    log.save(4, 1);
    log.save(4, 2);
    assert_eq!(log.load().copied(), Some(2));
    assert_eq!(log.load_at_height(4).copied(), Some(2));
    assert!(log.load_at_height(3).is_none());
}

#[test]
fn snapshot_map_tracks_keys_independently() {
    let mut map: SnapshotMap<u128> = SnapshotMap::new();
    map.save(10, 1, 100);
    map.save(20, 2, 200);
    map.save(10, 3, 150);

    assert_eq!(map.get(10).copied(), Some(150));
    assert_eq!(map.get(20).copied(), Some(200));
    assert!(map.get(30).is_none());

    assert_eq!(map.get_at_height(10, 1).copied(), Some(100));
    assert_eq!(map.get_at_height(10, 2).copied(), Some(100));
    assert_eq!(map.get_at_height(10, 3).copied(), Some(150));
    assert!(map.get_at_height(20, 1).is_none());
    assert_eq!(map.get_at_height(20, 2).copied(), Some(200));
}

#[test]
fn claims_release_only_matured_amounts() {
    let mut claims = Claims::new();
    claims.create_claim(1, 30, Expiration::AtTime(20));
    claims.create_claim(1, 20, Expiration::AtHeight(9));
    claims.create_claim(2, 5, Expiration::AtTime(15));
    assert_eq!(claims.count(1), 2);
    assert_eq!(claims.count(2), 1);

    let block = BlockInfo { height: 8, time: 20 };
    let released = claims.claim_tokens(1, &block);
    // only the time-based claim has matured; the height threshold has not passed
    assert_eq!(released, 30);
    assert_eq!(claims.count(1), 1);
    assert_eq!(claims.query_claims(1)[0].amount, 20);
    assert_eq!(claims.count(2), 1);

    let block = BlockInfo { height: 9, time: 20 };
    let released = claims.claim_tokens(1, &block);
    assert_eq!(released, 20);
    assert_eq!(claims.count(1), 0);
}

#[test]
fn validate_duration_rejects_zero() {
    assert!(validate_duration(None).is_ok());
    assert!(validate_duration(Some(Duration::Time(1))).is_ok());
    assert!(validate_duration(Some(Duration::Height(1))).is_ok());
    assert_eq!(
        validate_duration(Some(Duration::Time(0))),
        Err(UnboundingDurationError::InvalidUnboundingDuration {})
    );
    assert_eq!(
        validate_duration(Some(Duration::Height(0))),
        Err(UnboundingDurationError::InvalidUnboundingDuration {})
    );
}

#[test]
fn validate_denom_exists_follows_the_query_outcome() {
    assert!(validate_denom_exists(true, &"ustake".to_string()).is_ok());
    assert_eq!(
        validate_denom_exists(false, &"ufake".to_string()),
        Err(DenomError::InvalidDenom { denom: "ufake".to_string() })
    );
}

#[test]
fn duration_after_yields_the_right_threshold() {
    let block = BlockInfo { height: 12, time: 40 };
    assert_eq!(Duration::Height(3).after(&block), Expiration::AtHeight(15));
    assert_eq!(Duration::Time(5).after(&block), Expiration::AtTime(45));
    assert!(Expiration::AtTime(45).is_expired(&BlockInfo { height: 0, time: 45 }));
    assert!(!Expiration::AtTime(45).is_expired(&BlockInfo { height: 0, time: 44 }));
    assert!(Expiration::AtHeight(15).is_expired(&BlockInfo { height: 15, time: 0 }));
    assert!(!Expiration::AtHeight(15).is_expired(&BlockInfo { height: 14, time: 0 }));
}
