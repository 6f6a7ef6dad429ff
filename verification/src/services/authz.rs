//! Who may read, upload and delete question pools. Tiers are ordered by
//! rank; a reader sees the pools of its own tier and of every lower one.
use vstd::prelude::*;

verus! {

/// Rank granted to anonymous visitors; matches the seeded `public` tier.
pub const ANONYMOUS_TIER_RANK: i32 = 0;

/// The caller of a request, as far as access decisions need it.
#[derive(Debug, Clone, Copy, PartialEq, Eq, Structural)]
pub struct Actor {
    pub user_id: Option<i32>,
    pub tier_rank: i32,
    pub is_admin: bool,
    pub can_upload_pools: bool,
}

/// A pool with the name and rank of its tier.
#[derive(Debug)]
pub struct PoolAccess {
    pub id: i32,
    pub name: String,
    pub tier_id: i32,
    pub tier_name: String,
    pub tier_rank: i32,
}

/// The actor of a request without a session.
pub open spec fn anonymous_actor() -> Actor {
    Actor {
        user_id: None,
        tier_rank: ANONYMOUS_TIER_RANK,
        is_admin: false,
        can_upload_pools: false,
    }
}

impl Actor {
    /// An anonymous visitor: public rank, no privileges.
    pub fn anonymous() -> (r: Self)
        ensures
            r == anonymous_actor(),
    {
        Actor {
            user_id: None,
            tier_rank: ANONYMOUS_TIER_RANK,
            is_admin: false,
            can_upload_pools: false,
        }
    }
}

/// A pool is readable when its tier sits at or below the actor's tier.
pub open spec fn may_access(actor: Actor, pool_tier_rank: i32) -> bool {
    actor.is_admin || pool_tier_rank <= actor.tier_rank
}

/// Uploading takes the explicit permission; the chosen tier may not exceed
/// the uploader's own.
pub open spec fn may_assign(actor: Actor, target_tier_rank: i32) -> bool {
    actor.is_admin || (actor.can_upload_pools && target_tier_rank <= actor.tier_rank)
}

pub open spec fn may_upload(actor: Actor) -> bool {
    actor.is_admin || actor.can_upload_pools
}

/// Pools may be removed by an admin or by the uploader who created them.
pub open spec fn may_delete(actor: Actor, pool_created_by: Option<i32>) -> bool {
    actor.is_admin || match (actor.user_id, pool_created_by) {
        (Some(actor_id), Some(owner_id)) => actor.can_upload_pools && actor_id == owner_id,
        _ => false,
    }
}

/// A pool is readable when its tier sits at or below the actor's tier.
pub fn can_access_pool(actor: &Actor, pool_tier_rank: i32) -> (r: bool)
    ensures
        r == may_access(*actor, pool_tier_rank),
{
    actor.is_admin || pool_tier_rank <= actor.tier_rank
}

/// Uploading requires the explicit permission; the chosen tier may not exceed the uploader's own.
pub fn can_assign_pool_tier(actor: &Actor, target_tier_rank: i32) -> (r: bool)
    ensures
        r == may_assign(*actor, target_tier_rank),
{
    if actor.is_admin {
        return true;
    }
    actor.can_upload_pools && target_tier_rank <= actor.tier_rank
}

pub fn can_upload(actor: &Actor) -> (r: bool)
    ensures
        r == may_upload(*actor),
{
    actor.is_admin || actor.can_upload_pools
}

/// Pools may be removed by an admin or by the uploader who created them.
pub fn can_delete_pool(actor: &Actor, pool_created_by: Option<i32>) -> (r: bool)
    ensures
        r == may_delete(*actor, pool_created_by),
{
    if actor.is_admin {
        return true;
    }
    match (actor.user_id, pool_created_by) {
        (Some(actor_id), Some(owner_id)) => actor.can_upload_pools && actor_id == owner_id,
        _ => false,
    }
}

/// The actor of a request: anonymous without a session user or when the
/// user's row (admin flag, upload permission, tier rank) is not found.
pub fn actor_from_lookup(user_id: Option<i32>, row: Option<(bool, bool, i32)>) -> (r: Actor)
    ensures
        r == match (user_id, row) {
            (Some(id), Some((is_admin, can_upload_pools, tier_rank))) => Actor {
                user_id: Some(id),
                tier_rank,
                is_admin,
                can_upload_pools,
            },
            _ => anonymous_actor(),
        },
{
    match (user_id, row) {
        (Some(id), Some((is_admin, can_upload_pools, tier_rank))) => Actor {
            user_id: Some(id),
            tier_rank,
            is_admin,
            can_upload_pools,
        },
        _ => Actor::anonymous(),
    }
}

/// Tier visibility is inherited downwards: whoever may read a pool of some
/// tier may read the pools of every lower tier.
pub proof fn lower_tiers_are_inherited(actor: Actor, rank: i32, lower: i32)
    requires
        lower <= rank,
        may_access(actor, rank),
    ensures
        may_access(actor, lower),
{
}

/// An anonymous visitor reads exactly the public tier and those below it.
pub proof fn anonymous_reads_public_only(rank: i32)
    ensures
        may_access(anonymous_actor(), rank) <==> rank <= ANONYMOUS_TIER_RANK,
        !may_upload(anonymous_actor()),
        !may_assign(anonymous_actor(), rank),
        forall|owner: Option<i32>| !may_delete(anonymous_actor(), owner),
{
}

/// An admin may read, assign and delete anything.
pub proof fn admin_may_do_anything(actor: Actor, rank: i32, owner: Option<i32>)
    requires
        actor.is_admin,
    ensures
        may_access(actor, rank),
        may_assign(actor, rank),
        may_upload(actor),
        may_delete(actor, owner),
{
}

/// A tier that the actor may assign to an upload is one it may read, and
/// assigning needs the upload permission.
pub proof fn assignable_tiers_are_readable(actor: Actor, rank: i32)
    requires
        may_assign(actor, rank),
    ensures
        may_access(actor, rank),
        may_upload(actor),
{
}

/// Deleting a pool needs the upload permission.
pub proof fn deleting_needs_upload(actor: Actor, owner: Option<i32>)
    requires
        may_delete(actor, owner),
    ensures
        may_upload(actor),
{
}

} // verus!
