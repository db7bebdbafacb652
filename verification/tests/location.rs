use cowin_rs::location::{
    CacheAction, CacheLoad, District, Districts, NotFoundError, State, States, StatesAndDistricts,
};

fn state(id: i16, name: &str) -> State {
    State { state_id: id, state_name: name.to_string(), state_name_l: None }
}

fn district(id: i16, name: &str, owner: Option<i16>) -> District {
    District {
        district_id: id,
        district_name: name.to_string(),
        district_name_l: None,
        state_id: owner,
    }
}

fn kerala_snapshot() -> StatesAndDistricts {
    StatesAndDistricts::new(
        vec![state(1, "Kerala")],
        vec![district(10, "Kollam", Some(1)), district(11, "Kottayam", Some(1))],
        0,
    )
}

#[test]
fn resolve_known_district() {
    let sd = kerala_snapshot();
    assert_eq!(sd.district_id("Kerala", "Kottayam"), Ok(11));
    assert_eq!(sd.district_id("Kerala", "Kollam"), Ok(10));
}

#[test]
fn resolve_unknown_district() {
    let sd = kerala_snapshot();
    assert_eq!(sd.district_id("Kerala", "Nonexistent"), Err(NotFoundError::District));
}

#[test]
fn resolve_unknown_state() {
    let sd = kerala_snapshot();
    assert_eq!(sd.district_id("Karnataka", "Kollam"), Err(NotFoundError::State));
}

#[test]
fn resolve_repeats_identically() {
    let sd = kerala_snapshot();
    let first = sd.district_id("Kerala", "Kottayam");
    let second = sd.district_id("Kerala", "Kottayam");
    assert_eq!(first, second);
}

#[test]
fn resolve_picks_first_matching_state() {
    let sd = StatesAndDistricts::new(
        vec![state(1, "Kerala"), state(2, "Kerala")],
        vec![district(20, "Alpha", Some(2)), district(10, "Alpha", Some(1))],
        0,
    );
    assert_eq!(sd.district_id("Kerala", "Alpha"), Ok(10));
}

#[test]
fn resolve_ignores_other_states_districts() {
    let sd = StatesAndDistricts::new(
        vec![state(1, "Kerala"), state(2, "Goa")],
        vec![district(20, "Panaji", Some(2))],
        0,
    );
    assert_eq!(sd.district_id("Kerala", "Panaji"), Err(NotFoundError::District));
}

#[test]
fn resolve_skips_unstamped_districts() {
    let sd = StatesAndDistricts::new(
        vec![state(1, "Kerala")],
        vec![district(10, "Kollam", None)],
        0,
    );
    assert_eq!(sd.district_id("Kerala", "Kollam"), Err(NotFoundError::District));
}

#[test]
fn merge_uses_shortest_ttl() {
    // The state list grants 24 hours; the two district fetches grant 12 and 6.
    let states = States { states: vec![state(1, "Kerala"), state(2, "Goa")], ttl: 24 };
    let outcomes = vec![
        Some(Districts { districts: vec![district(10, "Kollam", None)], ttl: 12 }),
        Some(Districts { districts: vec![district(20, "Panaji", None)], ttl: 6 }),
    ];
    let now = 1_000_000;
    let (sd, failed) = StatesAndDistricts::merge(states, outcomes, now);
    assert_eq!(sd.expires_at, now + 6 * 3600);
    assert!(failed.is_empty());
}

#[test]
fn merge_stamps_owning_state() {
    let states = States { states: vec![state(1, "Kerala"), state(2, "Goa")], ttl: 24 };
    let outcomes = vec![
        Some(Districts {
            districts: vec![district(10, "Kollam", None), district(11, "Kottayam", None)],
            ttl: 12,
        }),
        Some(Districts { districts: vec![district(20, "Panaji", None)], ttl: 12 }),
    ];
    let (sd, _) = StatesAndDistricts::merge(states, outcomes, 0);
    assert_eq!(sd.districts.len(), 3);
    assert_eq!(sd.districts[0].state_id, Some(1));
    assert_eq!(sd.districts[0].district_id, 10);
    assert_eq!(sd.districts[0].district_name, "Kollam");
    assert_eq!(sd.districts[1].state_id, Some(1));
    assert_eq!(sd.districts[2].state_id, Some(2));
    assert_eq!(sd.districts[2].district_id, 20);
    assert_eq!(sd.district_id("Goa", "Panaji"), Ok(20));
}

#[test]
fn merge_reports_failed_states() {
    let states = States { states: vec![state(1, "Kerala"), state(2, "Goa")], ttl: 24 };
    let outcomes = vec![
        None,
        Some(Districts { districts: vec![district(20, "Panaji", None)], ttl: 12 }),
    ];
    let (sd, failed) = StatesAndDistricts::merge(states, outcomes, 0);
    assert_eq!(failed, vec![1]);
    assert_eq!(sd.districts.len(), 1);
    assert_eq!(sd.districts[0].district_id, 20);
    // The failed fetch contributes no TTL either: expiry comes from 24 and 12.
    assert_eq!(sd.expires_at, 12 * 3600);
}

#[test]
fn merge_with_no_states_keeps_state_list_ttl() {
    let states = States { states: vec![], ttl: 5 };
    let (sd, failed) = StatesAndDistricts::merge(states, vec![], 7_000);
    assert_eq!(sd.expires_at, 7_000 + 5 * 3600);
    assert!(sd.states.is_empty());
    assert!(sd.districts.is_empty());
    assert!(failed.is_empty());
}

#[test]
fn merge_keeps_state_list() {
    let states = States { states: vec![state(1, "Kerala"), state(2, "Goa")], ttl: 1 };
    let (sd, _) = StatesAndDistricts::merge(states, vec![None, None], 0);
    assert_eq!(sd.states.len(), 2);
    assert_eq!(sd.states[0].state_name, "Kerala");
    assert_eq!(sd.states[1].state_name, "Goa");
}

#[test]
fn merge_with_every_fetch_failed() {
    let states = States { states: vec![state(1, "Kerala"), state(2, "Goa")], ttl: 8 };
    let (sd, failed) = StatesAndDistricts::merge(states, vec![None, None], 100);
    assert_eq!(failed, vec![1, 2]);
    assert!(sd.districts.is_empty());
    assert_eq!(sd.expires_at, 100 + 8 * 3600);
}

#[test]
fn localized_names_do_not_affect_lookup() {
    let sd = StatesAndDistricts::new(
        vec![State {
            state_id: 1,
            state_name: "Kerala".to_string(),
            state_name_l: Some("Keralam".to_string()),
        }],
        vec![District {
            district_id: 10,
            district_name: "Kollam".to_string(),
            district_name_l: Some("Kollam City".to_string()),
            state_id: Some(1),
        }],
        0,
    );
    assert_eq!(sd.district_id("Kerala", "Kollam"), Ok(10));
    assert_eq!(sd.district_id("Keralam", "Kollam"), Err(NotFoundError::State));
    assert_eq!(sd.district_id("Kerala", "Kollam City"), Err(NotFoundError::District));
}

#[test]
fn merge_with_zero_ttl_expires_immediately() {
    let states = States { states: vec![state(1, "Kerala")], ttl: 24 };
    let outcomes = vec![Some(Districts { districts: vec![], ttl: 0 })];
    let now = 50_000;
    let (sd, _) = StatesAndDistricts::merge(states, outcomes, now);
    assert_eq!(sd.expires_at, now);
    assert!(!sd.is_fresh(now));
}

#[test]
fn cache_serves_fresh_snapshot_unchanged() {
    let sd = StatesAndDistricts::new(vec![state(1, "Kerala")], vec![], 100);
    match cowin_rs::location::cache_step(CacheLoad::Loaded(sd), 99) {
        CacheAction::Serve(served) => {
            assert_eq!(served.expires_at, 100);
            assert_eq!(served.states.len(), 1);
            assert_eq!(served.states[0].state_name, "Kerala");
        }
        CacheAction::Refresh => panic!("a fresh snapshot must be served"),
    }
}

#[test]
fn cache_refreshes_expired_snapshot() {
    let sd = StatesAndDistricts::new(vec![state(1, "Kerala")], vec![], 100);
    assert!(matches!(
        cowin_rs::location::cache_step(CacheLoad::Loaded(sd), 100),
        CacheAction::Refresh
    ));
}

#[test]
fn cache_refreshes_when_file_missing() {
    assert!(matches!(
        cowin_rs::location::cache_step(CacheLoad::Missing, 0),
        CacheAction::Refresh
    ));
}

#[test]
fn cache_refreshes_when_file_corrupt() {
    // An undecodable persisted file never surfaces an error: it demands a refresh.
    assert!(matches!(
        cowin_rs::location::cache_step(CacheLoad::Corrupt, 0),
        CacheAction::Refresh
    ));
}

#[test]
fn freshness_is_a_strict_bound() {
    let sd = StatesAndDistricts::new(vec![], vec![], 100);
    assert!(sd.is_fresh(99));
    assert!(!sd.is_fresh(100));
    assert!(!sd.is_fresh(101));
}

#[test]
fn refresh_after_expiry_advances_expiry() {
    let old = StatesAndDistricts::new(vec![state(1, "Kerala")], vec![], 100);
    let now = 200;
    assert!(!old.is_fresh(now));
    let states = States { states: vec![state(1, "Kerala")], ttl: 1 };
    let outcomes = vec![Some(Districts { districts: vec![], ttl: 2 })];
    let (fresh, _) = StatesAndDistricts::merge(states, outcomes, now);
    assert!(fresh.expires_at > old.expires_at);
    assert_eq!(fresh.expires_at, now + 3600);
}
