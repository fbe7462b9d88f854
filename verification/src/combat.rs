//! Who is hit by a projectile, and what follows from deaths.

use vstd::prelude::*;
use crate::gamestate::EntityId;

verus! {

/// Two entities started to touch.
#[derive(Clone, Copy, Debug, PartialEq, Eq, Structural)]
pub struct CollisionStartedDomain {
    pub entity1: EntityId,
    pub entity2: EntityId,
}

/// What the world holds about one entity of a collision.
#[derive(Clone, Copy, Debug, PartialEq, Eq, Structural)]
pub struct ContactFacts {
    /// The entity is a projectile that deals damage.
    pub is_projectile: bool,
    /// The entity has health.
    pub has_health: bool,
    /// Its health is at zero or below.
    pub health_depleted: bool,
    /// The character that fired it, when it is a fired projectile.
    pub shooter: Option<EntityId>,
}

/// How a collision is resolved.
#[derive(Clone, Copy, Debug, PartialEq, Eq, Structural)]
pub enum HitOutcome {
    /// Neither entity is a projectile.
    NotAProjectile,
    /// The entity hit has no health.
    TargetWithoutHealth,
    /// The projectile was not fired by anyone.
    ProjectileWithoutShooter,
    /// A character hit itself.
    SelfHit,
    /// The entity hit is dead already.
    TargetAlreadyDead,
    /// The projectile deals its damage to the target.
    Hit { target: EntityId, projectile: EntityId, shooter: EntityId },
}

/// The resolution of a collision: the second entity is taken as the
/// projectile when it is one, else the first; the other one is the target.
pub open spec fn hit_outcome(
    collision: CollisionStartedDomain,
    first: ContactFacts,
    second: ContactFacts,
) -> HitOutcome {
    if !first.is_projectile && !second.is_projectile {
        HitOutcome::NotAProjectile
    } else {
        let (target, target_facts, projectile, projectile_facts) = if second.is_projectile {
            (collision.entity1, first, collision.entity2, second)
        } else {
            (collision.entity2, second, collision.entity1, first)
        };
        if !target_facts.has_health {
            HitOutcome::TargetWithoutHealth
        } else {
            match projectile_facts.shooter {
                None => HitOutcome::ProjectileWithoutShooter,
                Some(shooter) => if shooter == target {
                    HitOutcome::SelfHit
                } else if target_facts.health_depleted {
                    HitOutcome::TargetAlreadyDead
                } else {
                    HitOutcome::Hit { target, projectile, shooter }
                },
            }
        }
    }
}

/// Resolves a collision between a projectile and a character.
pub fn resolve_projectile_hit(
    collision: CollisionStartedDomain,
    first: ContactFacts,
    second: ContactFacts,
) -> (outcome: HitOutcome)
    ensures
        outcome == hit_outcome(collision, first, second),
{
    let (target, target_facts, projectile, projectile_facts) = if second.is_projectile {
        (collision.entity1, first, collision.entity2, second)
    } else if first.is_projectile {
        (collision.entity2, second, collision.entity1, first)
    } else {
        return HitOutcome::NotAProjectile;
    };
    if !target_facts.has_health {
        return HitOutcome::TargetWithoutHealth;
    }
    let shooter = match projectile_facts.shooter {
        Some(s) => s,
        None => {
            return HitOutcome::ProjectileWithoutShooter;
        },
    };
    if shooter == target {
        return HitOutcome::SelfHit;
    }
    if target_facts.health_depleted {
        return HitOutcome::TargetAlreadyDead;
    }
    HitOutcome::Hit { target, projectile, shooter }
}

/// Law: a character never damages itself, and damage only goes to a living
/// target with health, from a projectile of the collision.
pub proof fn lemma_hit_targets(
    collision: CollisionStartedDomain,
    first: ContactFacts,
    second: ContactFacts,
)
    ensures
        hit_outcome(collision, first, second) matches HitOutcome::Hit {
            target,
            projectile,
            shooter,
        } ==> {
            &&& target != shooter
            &&& (target == collision.entity1 && projectile == collision.entity2 && second.is_projectile
                && first.has_health && !first.health_depleted && second.shooter == Some(shooter))
                || (target == collision.entity2 && projectile == collision.entity1
                && first.is_projectile && !second.is_projectile && second.has_health
                && !second.health_depleted && first.shooter == Some(shooter))
        },
{
}

/// Law: a projectile fired by someone other than the living character it
/// touches always hits that character, whichever of the two entities of the
/// collision it is (`s` is the shooter); a hit counts as a self-hit only when
/// the projectile's shooter is the entity it touches.
pub proof fn lemma_hit_happens(
    collision: CollisionStartedDomain,
    first: ContactFacts,
    second: ContactFacts,
    s: EntityId,
)
    ensures
        second.is_projectile && first.has_health && !first.health_depleted && second.shooter
            == Some(s) && s != collision.entity1 ==> hit_outcome(collision, first, second)
            == (HitOutcome::Hit {
            target: collision.entity1,
            projectile: collision.entity2,
            shooter: s,
        }),
        !second.is_projectile && first.is_projectile && second.has_health
            && !second.health_depleted && first.shooter == Some(s) && s != collision.entity2
            ==> hit_outcome(collision, first, second) == (HitOutcome::Hit {
            target: collision.entity2,
            projectile: collision.entity1,
            shooter: s,
        }),
        !first.is_projectile && !second.is_projectile ==> hit_outcome(collision, first, second)
            is NotAProjectile,
        hit_outcome(collision, first, second) is SelfHit ==> (second.is_projectile
            && second.shooter == Some(collision.entity1)) || (!second.is_projectile
            && first.is_projectile && first.shooter == Some(collision.entity2)),
{
}

/// What follows from the deaths of a frame.
pub struct DeathOutcome {
    /// The player died: the level is lost.
    pub defeat: bool,
    /// The entities to remove.
    pub despawn: Vec<EntityId>,
}

/// Handles the deaths of a frame: every dead character is removed, and the
/// level is lost when the player is among them. Without a player nothing
/// happens.
pub fn handle_character_zero_health(player: Option<EntityId>, targets: &Vec<EntityId>) -> (out:
    DeathOutcome)
    ensures
        out.defeat == (player matches Some(p) && targets@.contains(p)),
        out.despawn@ == if player is Some {
            targets@
        } else {
            Seq::<EntityId>::empty()
        },
{
    let p = match player {
        Some(p) => p,
        None => {
            return DeathOutcome { defeat: false, despawn: Vec::new() };
        },
    };
    let mut defeat = false;
    let mut despawn: Vec<EntityId> = Vec::new();
    let mut i: usize = 0;
    while i < targets.len()
        invariant
            i <= targets.len(),
            despawn@ == targets@.take(i as int),
            defeat == targets@.take(i as int).contains(p),
        decreases targets.len() - i,
    {
        let t = targets[i];
        proof {
            let before = targets@.take(i as int);
            let after = targets@.take(i + 1);
            assert(after =~= before.push(t));
            if before.contains(p) {
                let j = choose|j: int| 0 <= j < before.len() && before[j] == p;
                assert(after[j] == p);
            }
            if after.contains(p) && t != p {
                let j = choose|j: int| 0 <= j < after.len() && after[j] == p;
                assert(before[j] == p);
            }
            if t == p {
                assert(after[i as int] == p);
            }
        }
        if t == p {
            defeat = true;
        }
        despawn.push(t);
        i += 1;
    }
    assert(targets@.take(targets.len() as int) =~= targets@);
    DeathOutcome { defeat, despawn }
}

} // verus!
