//! Prepared mod actions: a plan is confirmed by the user and then executed
//! once, before it expires; a game runs one mod action at a time.
use vstd::prelude::*;

use crate::catalog::{definition_index, find_definition, ModDefinition, ModIntegration};
use crate::error::{mod_error, ErrorResponse};
use crate::pending::{
    add_game, distinct_ids, entries_map, has_game, kept_entries, no_repeats, put_entry, remove_game, retain_entries,
    take_entry,
};

verus! {

/// An action that the user confirmed.
#[derive(Clone, Debug)]
pub enum PreparedAction {
    Install { app_id: u32, mod_ids: Vec<String>, required_mod_ids: Vec<String>, replace_existing: Vec<String> },
    UninstallMod { app_id: u32, mod_id: String, remove_config: bool },
    UninstallBepInEx { app_id: u32 },
}

/// A prepared action and the instant it expires at, in milliseconds of the
/// app's monotonic clock.
#[derive(Clone, Debug)]
pub struct PreparedPlan {
    pub action: PreparedAction,
    pub expires_at: u64,
}

/// The pending plans, by identifier, and the games with a running action.
pub struct PlanStore {
    pending: Vec<(String, PreparedPlan)>,
    busy: Vec<u32>,
}

/// What the user is asked to confirm for a mod action.
#[derive(Clone, Debug)]
pub struct ModActionPlan {
    pub plan_id: String,
    pub app_id: u32,
    pub mod_ids: Vec<String>,
    pub installs_agent: bool,
    pub action: &'static str,
}

/// What the user is asked to confirm before BepInEx is removed: the
/// installed version and how many files that BepInEx does not own will be
/// backed up and removed with it.
#[derive(Clone, Debug)]
pub struct BepInExUninstallPlan {
    pub plan_id: String,
    pub app_id: u32,
    pub version: String,
    pub additional_file_count: usize,
}

/// Whether one of the mods an installation requires talks to the game
/// through the agent.
pub open spec fn needs_agent(definitions: Seq<ModDefinition>, required: Seq<String>) -> bool {
    exists|i: int|
        0 <= i < required.len() && definition_index(definitions, #[trigger] required[i]@) >= 0
            && definitions[definition_index(definitions, required[i]@)].integration == ModIntegration::Agent
}

/// Whether an installation deploys the agent: a mod it requires talks to
/// the game through the agent, and the game's agent is not the current one.
pub fn installs_agent(definitions: &Vec<ModDefinition>, required_mod_ids: &Vec<String>, agent_current: bool) -> (installs:
    bool)
    ensures
        installs == (needs_agent(definitions@, required_mod_ids@) && !agent_current),
{
    let mut i: usize = 0;
    while i < required_mod_ids.len()
        invariant
            i <= required_mod_ids@.len(),
            forall|j: int|
                0 <= j < i ==> !(definition_index(definitions@, #[trigger] required_mod_ids@[j]@) >= 0
                    && definitions@[definition_index(definitions@, required_mod_ids@[j]@)].integration
                    == ModIntegration::Agent),
        decreases required_mod_ids@.len() - i,
    {
        match find_definition(definitions, required_mod_ids[i].as_str()) {
            Some(definition) => {
                if definition.integration == ModIntegration::Agent {
                    return !agent_current;
                }
            },
            None => {},
        }
        i = i + 1;
    }
    false
}

/// The plan shown for installing (or, with `update`, updating) `mod_ids`.
pub fn install_plan_summary(plan_id: String, app_id: u32, mod_ids: Vec<String>, installs_agent: bool, update: bool) -> (plan:
    ModActionPlan)
    ensures
        plan.plan_id == plan_id,
        plan.app_id == app_id,
        plan.mod_ids == mod_ids,
        plan.installs_agent == installs_agent,
        plan.action@ == if update {
            "update"@
        } else {
            "install"@
        },
{
    let action = if update {
        "update"
    } else {
        "install"
    };
    ModActionPlan { plan_id, app_id, mod_ids, installs_agent, action }
}

/// The plan shown for uninstalling one mod, which never deploys the agent.
pub fn uninstall_plan_summary(plan_id: String, app_id: u32, mod_id: String) -> (plan: ModActionPlan)
    ensures
        plan.plan_id == plan_id,
        plan.app_id == app_id,
        plan.mod_ids@ == seq![mod_id],
        !plan.installs_agent,
        plan.action@ == "uninstall"@,
{
    let mut mod_ids: Vec<String> = Vec::new();
    mod_ids.push(mod_id);
    ModActionPlan { plan_id, app_id, mod_ids, installs_agent: false, action: "uninstall" }
}

/// What consuming plan `id` at instant `now` yields: its action where it is
/// pending and has not expired.
pub open spec fn consumed(plans: Map<Seq<char>, PreparedPlan>, id: Seq<char>, now: u64) -> Option<PreparedAction> {
    if plans.contains_key(id) && plans[id].expires_at > now {
        Some(plans[id].action)
    } else {
        None
    }
}

/// Whether a plan is still valid at instant `now`.
pub open spec fn unexpired_at(now: u64) -> spec_fn(PreparedPlan) -> bool {
    |plan: PreparedPlan| plan.expires_at > now
}

/// The game an action is for.
pub open spec fn action_game(action: PreparedAction) -> u32 {
    match action {
        PreparedAction::Install { app_id, .. } => app_id,
        PreparedAction::UninstallMod { app_id, .. } => app_id,
        PreparedAction::UninstallBepInEx { app_id } => app_id,
    }
}

/// The game an action is for.
pub fn game_of(action: &PreparedAction) -> (app_id: u32)
    ensures
        app_id == action_game(*action),
{
    match action {
        PreparedAction::Install { app_id, .. } => *app_id,
        PreparedAction::UninstallMod { app_id, .. } => *app_id,
        PreparedAction::UninstallBepInEx { app_id } => *app_id,
    }
}

impl PlanStore {
    #[verifier::type_invariant]
    spec fn well_formed(self) -> bool {
        &&& distinct_ids(self.pending@)
        &&& no_repeats(self.busy@)
    }

    /// The pending plans.
    pub closed spec fn plans(self) -> Map<Seq<char>, PreparedPlan> {
        entries_map(self.pending@)
    }

    /// The games with a running mod action.
    pub closed spec fn busy_games(self) -> Set<u32> {
        self.busy@.to_set()
    }

    /// A store without plans and without running actions.
    pub fn new() -> (store: PlanStore)
        ensures
            store.plans() == Map::<Seq<char>, PreparedPlan>::empty(),
            store.busy_games() == Set::<u32>::empty(),
    {
        let store = PlanStore { pending: Vec::new(), busy: Vec::new() };
        proof {
            assert(entries_map(store.pending@) =~= Map::<Seq<char>, PreparedPlan>::empty());
            assert(store.busy@.to_set() =~= Set::<u32>::empty());
        }
        store
    }

    /// Stores a plan under its identifier, replacing one stored under it.
    pub fn insert_plan(&mut self, id: String, plan: PreparedPlan)
        ensures
            final(self).plans() == old(self).plans().insert(id@, plan),
            final(self).busy_games() == old(self).busy_games(),
    {
        proof {
            use_type_invariant(&*self);
        }
        let mut pending: Vec<(String, PreparedPlan)> = Vec::new();
        std::mem::swap(&mut pending, &mut self.pending);
        put_entry(&mut pending, id, plan);
        self.pending = pending;
    }

    /// Drops the plans that have expired at instant `now`.
    pub fn prune_plans(&mut self, now: u64)
        ensures
            final(self).plans() == kept_entries(old(self).plans(), unexpired_at(now)),
            final(self).busy_games() == old(self).busy_games(),
    {
        proof {
            use_type_invariant(&*self);
        }
        let mut pending: Vec<(String, PreparedPlan)> = Vec::new();
        std::mem::swap(&mut pending, &mut self.pending);
        let decide = |plan: &PreparedPlan| -> (valid: bool)
            ensures
                valid == (plan.expires_at > now),
            { plan.expires_at > now };
        self.pending = retain_entries(pending, decide, Ghost(unexpired_at(now)));
    }

    /// Stores the plan of a mod installation: expired plans are dropped
    /// first, and a game that runs a mod action is `mod_busy`, in which case
    /// the plan is not stored.
    pub fn store_install_plan(&mut self, id: String, plan: PreparedPlan, now: u64) -> (result: Result<
        (),
        ErrorResponse,
    >)
        ensures
            final(self).busy_games() == old(self).busy_games(),
            result is Ok <==> !old(self).busy_games().contains(action_game(plan.action)),
            result is Ok ==> final(self).plans() == kept_entries(old(self).plans(), unexpired_at(now)).insert(
                id@,
                plan,
            ),
            result matches Err(e) ==> e.code@ == "mod_busy"@ && final(self).plans() == kept_entries(
                old(self).plans(),
                unexpired_at(now),
            ),
    {
        self.prune_plans(now);
        if self.is_busy(game_of(&plan.action)) {
            return Err(mod_error("mod_busy", "another mod action is already running"));
        }
        self.insert_plan(id, plan);
        Ok(())
    }

    /// Takes a plan out of the store: it is removed whether or not it is
    /// still valid, and its action is returned where it has not expired; a
    /// missing or expired plan is `mod_plan_expired`.
    pub fn consume_plan(&mut self, id: &str, now: u64) -> (result: Result<PreparedAction, ErrorResponse>)
        ensures
            final(self).plans() == old(self).plans().remove(id@),
            final(self).busy_games() == old(self).busy_games(),
            match consumed(old(self).plans(), id@, now) {
                Some(action) => result == Ok::<PreparedAction, ErrorResponse>(action),
                None => result matches Err(e) && e.code@ == "mod_plan_expired"@,
            },
    {
        proof {
            use_type_invariant(&*self);
        }
        let mut pending: Vec<(String, PreparedPlan)> = Vec::new();
        std::mem::swap(&mut pending, &mut self.pending);
        let taken = take_entry(&mut pending, id);
        self.pending = pending;
        match taken {
            Some(plan) => {
                if plan.expires_at > now {
                    Ok(plan.action)
                } else {
                    Err(mod_error("mod_plan_expired", "the action plan was missing or expired"))
                }
            },
            None => Err(mod_error("mod_plan_expired", "the action plan was missing or expired")),
        }
    }

    /// Marks a game as running a mod action; a game that already runs one
    /// is `mod_busy` and stays marked.
    pub fn mark_busy(&mut self, app_id: u32) -> (result: Result<(), ErrorResponse>)
        ensures
            final(self).plans() == old(self).plans(),
            final(self).busy_games() == old(self).busy_games().insert(app_id),
            result is Ok <==> !old(self).busy_games().contains(app_id),
            result matches Err(e) ==> e.code@ == "mod_busy"@,
    {
        proof {
            use_type_invariant(&*self);
        }
        let mut busy: Vec<u32> = Vec::new();
        std::mem::swap(&mut busy, &mut self.busy);
        let added = add_game(&mut busy, app_id);
        self.busy = busy;
        if added {
            Ok(())
        } else {
            Err(mod_error("mod_busy", "another mod action is already running"))
        }
    }

    /// Marks a game's mod action as finished.
    pub fn clear_busy(&mut self, app_id: u32)
        ensures
            final(self).plans() == old(self).plans(),
            final(self).busy_games() == old(self).busy_games().remove(app_id),
    {
        proof {
            use_type_invariant(&*self);
        }
        let mut busy: Vec<u32> = Vec::new();
        std::mem::swap(&mut busy, &mut self.busy);
        remove_game(&mut busy, app_id);
        self.busy = busy;
    }

    /// Whether a game runs a mod action.
    pub fn is_busy(&self, app_id: u32) -> (busy: bool)
        ensures
            busy == self.busy_games().contains(app_id),
    {
        has_game(&self.busy, app_id)
    }
}

/// A confirmed plan runs at most once: after it is consumed, consuming it
/// again yields nothing, at any instant.
pub proof fn plans_are_single_use(plans: Map<Seq<char>, PreparedPlan>, id: Seq<char>, later: u64)
    ensures
        consumed(plans.remove(id), id, later) is None,
{
}

/// A plan yields its action only before it expires.
pub proof fn expired_plans_are_refused(plans: Map<Seq<char>, PreparedPlan>, id: Seq<char>, now: u64)
    requires
        plans.contains_key(id),
        plans[id].expires_at <= now,
    ensures
        consumed(plans, id, now) is None,
{
}

/// A game runs one mod action at a time: once marked busy, marking it
/// again is refused until the mark is cleared, and clearing it allows the
/// next one.
pub proof fn one_action_per_game(busy: Set<u32>, app_id: u32)
    ensures
        busy.insert(app_id).contains(app_id),
        !busy.insert(app_id).remove(app_id).contains(app_id),
{
}

} // verus!
