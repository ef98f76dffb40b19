use vstd::prelude::*;

verus! {

/// Bounce budget a render gives each primary ray.
pub const MAX_BOUNCES: usize = 5;

/// The budget of a secondary (reflected or refracted) ray cast from a surface
/// whose own ray had `remaining` bounces left; `None` when no ray is cast.
pub open spec fn secondary(remaining: nat, contributes: bool) -> Option<nat> {
    if remaining == 0 || !contributes {
        None
    } else {
        Some((remaining - 1) as nat)
    }
}

/// Decides whether a surface casts a secondary ray. `contributes` says whether
/// that ray could add light: the material reflects (for a reflected ray), or is
/// transparent without total internal reflection (for a refracted one). The
/// secondary ray gets one bounce less than the ray that hit the surface.
pub fn secondary_budget(remaining: usize, contributes: bool) -> (r: Option<usize>)
    ensures
        r == (match secondary(remaining as nat, contributes) {
            Some(b) => Some(b as usize),
            None => None::<usize>,
        }),
{
    if remaining == 0 || !contributes {
        None
    } else {
        Some(remaining - 1)
    }
}

/// `budgets` are the bounce budgets of a ray and of the secondary rays nested
/// in it, each cast from where the previous one hit (a cast ray always had
/// something to add).
pub open spec fn is_bounce_chain(budgets: Seq<nat>) -> bool {
    forall|i: int|
        0 <= i < budgets.len() - 1 ==> #[trigger] secondary(budgets[i], true) == Some(
            budgets[i + 1],
        )
}

/// However mirrors and glass are arranged, reflection and refraction nest at
/// most `MAX_BOUNCES` deep below a primary ray, so shading a pixel ends.
pub proof fn lemma_bounces_end(budgets: Seq<nat>)
    requires
        budgets.len() >= 1,
        budgets[0] <= MAX_BOUNCES,
        is_bounce_chain(budgets),
    ensures
        budgets.len() <= MAX_BOUNCES + 1,
{
    lemma_budget_drops(budgets, budgets.len() - 1);
}

proof fn lemma_budget_drops(budgets: Seq<nat>, i: int)
    requires
        0 <= i < budgets.len(),
        is_bounce_chain(budgets),
    ensures
        budgets[i] + i == budgets[0],
    decreases i,
{
    if i > 0 {
        lemma_budget_drops(budgets, i - 1);
        assert(secondary(budgets[i - 1], true) == Some(budgets[i]));
    }
}

} // verus!
