use qsets_server::services::authz::{
    can_access_pool, can_assign_pool_tier, can_delete_pool, can_upload, Actor, ANONYMOUS_TIER_RANK,
};

fn actor(tier_rank: i32, is_admin: bool, can_upload_pools: bool) -> Actor {
    Actor {
        user_id: Some(1),
        tier_rank,
        is_admin,
        can_upload_pools,
    }
}

#[test]
fn anonymous_actor_has_public_rank_and_no_privileges() {
    let anon = Actor::anonymous();
    assert_eq!(anon.tier_rank, ANONYMOUS_TIER_RANK);
    assert!(!anon.is_admin);
    assert!(!anon.can_upload_pools);
    assert!(anon.user_id.is_none());
}

#[test]
fn anonymous_can_read_public_tier_only() {
    let anon = Actor::anonymous();
    assert!(can_access_pool(&anon, 0));
    assert!(!can_access_pool(&anon, 1));
    assert!(!can_access_pool(&anon, 3));
}

#[test]
fn user_can_read_own_tier_and_every_tier_below() {
    let regional = actor(2, false, false);
    assert!(can_access_pool(&regional, 0));
    assert!(can_access_pool(&regional, 1));
    assert!(can_access_pool(&regional, 2));
}

#[test]
fn user_cannot_read_higher_tier() {
    let district = actor(1, false, false);
    assert!(!can_access_pool(&district, 2));
    assert!(!can_access_pool(&district, 99));
}

#[test]
fn admin_can_read_any_tier() {
    let admin = actor(0, true, false);
    assert!(can_access_pool(&admin, 0));
    assert!(can_access_pool(&admin, 7));
}

#[test]
fn upload_requires_explicit_permission() {
    assert!(!can_upload(&actor(5, false, false)));
    assert!(can_upload(&actor(0, false, true)));
    assert!(can_upload(&actor(0, true, false)));
}

#[test]
fn uploader_cannot_assign_tier_above_own() {
    let uploader = actor(1, false, true);
    assert!(can_assign_pool_tier(&uploader, 0));
    assert!(can_assign_pool_tier(&uploader, 1));
    assert!(!can_assign_pool_tier(&uploader, 2));
}

#[test]
fn user_without_upload_permission_cannot_assign_any_tier() {
    let reader = actor(5, false, false);
    assert!(!can_assign_pool_tier(&reader, 0));
    assert!(!can_assign_pool_tier(&reader, 5));
}

#[test]
fn admin_can_assign_any_tier() {
    let admin = actor(0, true, false);
    assert!(can_assign_pool_tier(&admin, 42));
}

#[test]
fn tier_count_is_not_fixed() {
    let top = actor(9, false, true);
    for rank in 0..=9 {
        assert!(can_access_pool(&top, rank));
        assert!(can_assign_pool_tier(&top, rank));
    }
    assert!(!can_access_pool(&top, 10));
}

#[test]
fn uploader_may_delete_only_own_pool() {
    let uploader = actor(1, false, true);
    assert!(can_delete_pool(&uploader, Some(1)));
    assert!(!can_delete_pool(&uploader, Some(2)));
    assert!(!can_delete_pool(&uploader, None));
}

#[test]
fn admin_may_delete_any_pool() {
    let admin = actor(0, true, false);
    assert!(can_delete_pool(&admin, Some(2)));
    assert!(can_delete_pool(&admin, None));
}

#[test]
fn anonymous_may_not_delete_pools() {
    assert!(!can_delete_pool(&Actor::anonymous(), Some(1)));
}
