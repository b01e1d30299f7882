//! The installation plans kept between resolving and installing.
use crate::domain::ResolutionPlan;
use vstd::prelude::*;

verus! {

/// How many plans are kept; the oldest goes first.
pub const PLAN_LIMIT: usize = 30;

/// No two plans share an id.
pub open spec fn distinct_ids(plans: Seq<ResolutionPlan>) -> bool {
    forall|i: int, j: int| 0 <= i < j < plans.len() ==> (#[trigger] plans[i]).id@ != (#[trigger] plans[j]).id@
}

/// Some plan has this id.
pub open spec fn holds_id(plans: Seq<ResolutionPlan>, id: Seq<char>) -> bool {
    exists|i: int| 0 <= i < plans.len() && (#[trigger] plans[i]).id@ == id
}

/// Where the plan with this id stands.
pub open spec fn place_of(plans: Seq<ResolutionPlan>, id: Seq<char>) -> int {
    choose|i: int| 0 <= i < plans.len() && (#[trigger] plans[i]).id@ == id
}

/// The plan with this id, if one is kept.
pub open spec fn found(plans: Seq<ResolutionPlan>, id: Seq<char>) -> Option<ResolutionPlan> {
    if holds_id(plans, id) {
        Some(plans[place_of(plans, id)])
    } else {
        None
    }
}

/// The plans after keeping `plan`: an older plan with its id is dropped, the
/// new one goes last, and past the limit the oldest plan is forgotten.
pub open spec fn remembered(plans: Seq<ResolutionPlan>, plan: ResolutionPlan) -> Seq<ResolutionPlan> {
    let kept = if holds_id(plans, plan.id@) {
        plans.remove(place_of(plans, plan.id@))
    } else {
        plans
    };
    let added = kept.push(plan);
    if added.len() > PLAN_LIMIT {
        added.drop_first()
    } else {
        added
    }
}

/// The plans resolved recently, by id.
pub struct PlanStore {
    plans: Vec<ResolutionPlan>,
}

impl PlanStore {
    /// The plans kept, oldest first.
    pub closed spec fn stored(self) -> Seq<ResolutionPlan> {
        self.plans@
    }

    /// Ids are unique and the limit holds.
    pub closed spec fn wf(self) -> bool {
        distinct_ids(self.plans@) && self.plans.len() <= PLAN_LIMIT
    }

    /// An empty store.
    pub fn new() -> (r: Self)
        ensures
            r.wf(),
            r.stored().len() == 0,
    {
        PlanStore { plans: Vec::new() }
    }

    /// Keeps a plan so that it can be found by its id.
    pub fn remember(&mut self, plan: ResolutionPlan)
        requires
            old(self).wf(),
        ensures
            final(self).wf(),
            final(self).stored() == remembered(old(self).stored(), plan),
    {
        let ghost before = self.plans@;
        match self.position(&plan.id) {
            Some(i) => {
                proof {
                    lemma_unique_place(before, i as int);
                }
                self.plans.remove(i);
            },
            None => {},
        }
        self.plans.push(plan);
        if self.plans.len() > PLAN_LIMIT {
            self.plans.remove(0);
        }
        proof {
            lemma_remembered_distinct(before, plan);
            let kept = if holds_id(before, plan.id@) {
                before.remove(place_of(before, plan.id@))
            } else {
                before
            };
            if kept.push(plan).len() > PLAN_LIMIT {
                assert(self.plans@ =~= kept.push(plan).drop_first());
            } else {
                assert(self.plans@ =~= kept.push(plan));
            }
        }
    }

    /// Where the plan with this id stands, if one is kept.
    fn position(&self, id: &String) -> (r: Option<usize>)
        ensures
            match r {
                Some(i) => i < self.plans.len() && self.plans@[i as int].id@ == id@,
                None => !holds_id(self.plans@, id@),
            },
    {
        let mut i: usize = 0;
        while i < self.plans.len()
            invariant
                i <= self.plans.len(),
                forall|j: int| 0 <= j < i ==> (#[trigger] self.plans@[j]).id@ != id@,
            decreases self.plans.len() - i,
        {
            if self.plans[i].id == *id {
                return Some(i);
            }
            i = i + 1;
        }
        None
    }

    /// The plan with this id, if it is still kept.
    pub fn find(&self, id: &String) -> (r: Option<&ResolutionPlan>)
        requires
            self.wf(),
        ensures
            match r {
                Some(plan) => found(self.stored(), id@) == Some(*plan),
                None => found(self.stored(), id@) is None,
            },
    {
        match self.position(id) {
            Some(i) => {
                proof {
                    lemma_unique_place(self.plans@, i as int);
                }
                Some(&self.plans[i])
            },
            None => None,
        }
    }
}

/// With unique ids, the plan at `i` is the one found by its id.
proof fn lemma_unique_place(plans: Seq<ResolutionPlan>, i: int)
    requires
        distinct_ids(plans),
        0 <= i < plans.len(),
    ensures
        holds_id(plans, plans[i].id@),
        place_of(plans, plans[i].id@) == i,
        found(plans, plans[i].id@) == Some(plans[i]),
{
    assert(holds_id(plans, plans[i].id@));
    let j = place_of(plans, plans[i].id@);
    if j < i {
        assert(plans[j].id@ != plans[i].id@);
    } else if i < j {
        assert(plans[i].id@ != plans[j].id@);
    }
}

/// Keeping a plan keeps the ids unique, and the new plan stands last.
proof fn lemma_remembered_distinct(plans: Seq<ResolutionPlan>, plan: ResolutionPlan)
    requires
        distinct_ids(plans),
        plans.len() <= PLAN_LIMIT,
    ensures
        distinct_ids(remembered(plans, plan)),
        remembered(plans, plan).len() <= PLAN_LIMIT,
        remembered(plans, plan).len() > 0,
        remembered(plans, plan).last() == plan,
{
    let held = holds_id(plans, plan.id@);
    let k = place_of(plans, plan.id@);
    let kept = if held { plans.remove(k) } else { plans };
    assert forall|a: int| 0 <= a < kept.len() implies (#[trigger] kept[a]) == plans[if held && a >= k { a + 1 } else { a }] by {}
    assert forall|a: int, b: int| 0 <= a < b < kept.len() implies (#[trigger] kept[a]).id@ != (#[trigger] kept[b]).id@ by {
        let x = if held && a >= k { a + 1 } else { a };
        let y = if held && b >= k { b + 1 } else { b };
        assert(kept[a] == plans[x] && kept[b] == plans[y]);
    }
    assert forall|a: int| 0 <= a < kept.len() implies (#[trigger] kept[a]).id@ != plan.id@ by {
        let x = if held && a >= k { a + 1 } else { a };
        assert(kept[a] == plans[x]);
        if held {
            if x < k {
                assert(plans[x].id@ != plans[k].id@);
            } else {
                assert(plans[k].id@ != plans[x].id@);
            }
        }
    }
    let added = kept.push(plan);
    assert forall|a: int, b: int| 0 <= a < b < added.len() implies (#[trigger] added[a]).id@ != (#[trigger] added[b]).id@ by {
        assert(added[a] == kept[a]);
        if b < kept.len() {
            assert(added[b] == kept[b]);
        }
    }
    if added.len() > PLAN_LIMIT {
        let after = added.drop_first();
        assert forall|a: int, b: int| 0 <= a < b < after.len() implies (#[trigger] after[a]).id@ != (#[trigger] after[b]).id@ by {
            assert(after[a] == added[a + 1] && after[b] == added[b + 1]);
        }
    }
}

/// A plan that was just kept is found by its id, and so is every other
/// plan that was kept before while the store was not full.
pub proof fn law_remembered_plan_is_found(plans: Seq<ResolutionPlan>, plan: ResolutionPlan)
    requires
        distinct_ids(plans),
        plans.len() <= PLAN_LIMIT,
    ensures
        found(remembered(plans, plan), plan.id@) == Some(plan),
        plans.len() < PLAN_LIMIT ==> forall|i: int|
            0 <= i < plans.len() && (#[trigger] plans[i]).id@ != plan.id@ ==> found(
                remembered(plans, plan),
                plans[i].id@,
            ) == Some(plans[i]),
{
    lemma_remembered_distinct(plans, plan);
    let after = remembered(plans, plan);
    lemma_unique_place(after, after.len() - 1);
    if plans.len() < PLAN_LIMIT {
        assert forall|i: int| 0 <= i < plans.len() && (#[trigger] plans[i]).id@ != plan.id@ implies found(
            after,
            plans[i].id@,
        ) == Some(plans[i]) by {
            let held = holds_id(plans, plan.id@);
            let k = place_of(plans, plan.id@);
            if held {
                assert(plans[k].id@ == plan.id@);
            }
            let x = if held && i > k { i - 1 } else { i };
            assert(after[x] == plans[i]);
            lemma_unique_place(after, x);
        }
    }
}

} // verus!
