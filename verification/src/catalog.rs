use vstd::prelude::*;

use crate::bepinex::{BepInExArchitecture, BepInExRuntime};
use crate::error::{mod_error, ErrorResponse};
use crate::fields::{ConfigField, LocalizedText};

verus! {

/// How a mod talks to GameTweaks: through the agent or through its
/// configuration file.
#[derive(Clone, Copy, Debug, PartialEq, Eq, Structural)]
pub enum ModIntegration {
    Agent,
    ConfigFile,
}

/// A dependency of a mod on another catalog mod.
#[derive(Clone, Debug)]
pub struct ModDependency {
    pub mod_id: String,
    pub minimum_version: String,
}

/// Where a mod's release archive is published.
#[derive(Clone, Debug)]
pub struct ModRelease {
    pub repository: String,
    pub tag: String,
    pub asset: String,
    pub sha256: String,
}

/// The games a mod runs in.
#[derive(Clone, Debug)]
pub struct ModCompatibility {
    pub runtime: BepInExRuntime,
    pub architectures: Vec<BepInExArchitecture>,
    pub minimum_agent_version: Option<String>,
}

/// A reviewed mod definition of the game catalog.
#[derive(Clone, Debug)]
pub struct ModDefinition {
    pub schema_version: u32,
    pub mod_id: String,
    pub guid: String,
    pub version: String,
    pub official: bool,
    pub name: LocalizedText,
    pub description: LocalizedText,
    pub integration: ModIntegration,
    pub compatibility: ModCompatibility,
    pub release: ModRelease,
    pub dependencies: Vec<ModDependency>,
    pub conflicts: Vec<String>,
    pub config: Vec<ConfigField>,
}

/// A catalog entry that points at a mod definition file.
#[derive(Clone, Debug)]
pub struct ModReference {
    pub mod_id: String,
    pub file: String,
    pub sha256: String,
}

/// The catalog of one game.
#[derive(Clone, Debug)]
pub struct GameCatalog {
    pub schema_version: u32,
    pub app_id: u32,
    pub name: LocalizedText,
    pub mods: Vec<ModReference>,
}

// ---------------------------------------------------------------------------
// Dependency resolution.
// ---------------------------------------------------------------------------
/// The texts of a sequence of strings.
pub open spec fn texts(strings: Seq<String>) -> Seq<Seq<char>> {
    strings.map_values(|s: String| s@)
}

/// The mod identifiers that a mod depends on, in catalog order.
pub open spec fn dependency_ids(definition: ModDefinition) -> Seq<Seq<char>> {
    definition.dependencies@.map_values(|d: ModDependency| d.mod_id@)
}

/// The index of the first definition from `i` on with identifier `id`, or
/// `-1`.
pub open spec fn index_from(definitions: Seq<ModDefinition>, id: Seq<char>, i: int) -> int
    decreases definitions.len() - i,
{
    if 0 <= i < definitions.len() {
        if definitions[i].mod_id@ == id {
            i
        } else {
            index_from(definitions, id, i + 1)
        }
    } else {
        -1
    }
}

/// The index of the definition with identifier `id`, or `-1`.
pub open spec fn definition_index(definitions: Seq<ModDefinition>, id: Seq<char>) -> int {
    index_from(definitions, id, 0)
}

/// How dependency resolution fails.
pub enum ResolveFailure {
    Cycle,
    Missing,
}

/// The number of the first `n` definitions whose identifier is not on the
/// stack of mods being visited.
pub open spec fn unvisited(definitions: Seq<ModDefinition>, stack: Seq<Seq<char>>, n: int) -> nat
    decreases n,
{
    if n <= 0 {
        0
    } else {
        unvisited(definitions, stack, n - 1) + if stack.contains(definitions[n - 1].mod_id@) {
            0nat
        } else {
            1nat
        }
    }
}

pub proof fn lemma_index_from(definitions: Seq<ModDefinition>, id: Seq<char>, i: int)
    requires
        0 <= i,
    ensures
        index_from(definitions, id, i) == -1 || (i <= index_from(definitions, id, i)
            < definitions.len() && definitions[index_from(definitions, id, i)].mod_id@ == id),
    decreases definitions.len() - i,
{
    if 0 <= i < definitions.len() && definitions[i].mod_id@ != id {
        lemma_index_from(definitions, id, i + 1);
    }
}

pub proof fn lemma_unvisited_shrinks(
    definitions: Seq<ModDefinition>,
    stack: Seq<Seq<char>>,
    id: Seq<char>,
    k: int,
    n: int,
)
    requires
        0 <= k < definitions.len(),
        definitions[k].mod_id@ == id,
        !stack.contains(id),
        0 <= n <= definitions.len(),
    ensures
        unvisited(definitions, stack.push(id), n) <= unvisited(definitions, stack, n),
        n > k ==> unvisited(definitions, stack.push(id), n) < unvisited(definitions, stack, n),
    decreases n,
{
    if n > 0 {
        lemma_unvisited_shrinks(definitions, stack, id, k, n - 1);
        let m = definitions[n - 1].mod_id@;
        if stack.contains(m) {
            assert(stack.push(id).contains(m)) by {
                let j = choose|j: int| 0 <= j < stack.len() && stack[j] == m;
                assert(stack.push(id)[j] == m);
            }
        }
        if n - 1 == k {
            assert(stack.push(id)[stack.len() as int] == id);
        }
    }
}

/// Visits `id` depth first: its dependencies are resolved before it and it
/// is appended to the resolved list `done`. A mod met again while its own
/// dependencies are being resolved is a cycle; an unknown mod is missing.
pub open spec fn visit(
    definitions: Seq<ModDefinition>,
    id: Seq<char>,
    stack: Seq<Seq<char>>,
    done: Seq<Seq<char>>,
) -> Result<Seq<Seq<char>>, ResolveFailure>
    decreases unvisited(definitions, stack, definitions.len() as int), 0int, 0int,
{
    if done.contains(id) {
        Ok(done)
    } else if stack.contains(id) {
        Err(ResolveFailure::Cycle)
    } else {
        let k = definition_index(definitions, id);
        proof {
            lemma_index_from(definitions, id, 0);
        }
        if k < 0 {
            Err(ResolveFailure::Missing)
        } else {
            proof {
                lemma_unvisited_shrinks(definitions, stack, id, k, definitions.len() as int);
            }
            match visit_all(
                definitions,
                dependency_ids(definitions[k]),
                0,
                stack.push(id),
                done,
            ) {
                Ok(resolved) => Ok(resolved.push(id)),
                Err(failure) => Err(failure),
            }
        }
    }
}

/// Visits `ids[i..]` in order.
pub open spec fn visit_all(
    definitions: Seq<ModDefinition>,
    ids: Seq<Seq<char>>,
    i: int,
    stack: Seq<Seq<char>>,
    done: Seq<Seq<char>>,
) -> Result<Seq<Seq<char>>, ResolveFailure>
    decreases unvisited(definitions, stack, definitions.len() as int), 1int, ids.len() - i,
{
    if i < 0 || i >= ids.len() {
        Ok(done)
    } else {
        match visit(definitions, ids[i], stack, done) {
            Ok(resolved) => visit_all(definitions, ids, i + 1, stack, resolved),
            Err(failure) => Err(failure),
        }
    }
}

/// The install order for the requested mods: every requested mod and every
/// mod it transitively depends on, each after its dependencies, in
/// depth-first order.
pub open spec fn install_order(definitions: Seq<ModDefinition>, requested: Seq<Seq<char>>) -> Result<
    Seq<Seq<char>>,
    ResolveFailure,
> {
    visit_all(definitions, requested, 0, Seq::empty(), Seq::empty())
}

/// The error code that a resolution failure is reported with.
pub open spec fn resolve_failure_code(failure: ResolveFailure) -> Seq<char> {
    match failure {
        ResolveFailure::Cycle => "catalog_invalid"@,
        ResolveFailure::Missing => "mod_not_found"@,
    }
}

/// Finds the definition with the given identifier.
pub fn find_definition<'a>(definitions: &'a Vec<ModDefinition>, id: &str) -> (found: Option<
    &'a ModDefinition,
>)
    ensures
        definition_index(definitions@, id@) < 0 ==> found is None,
        definition_index(definitions@, id@) >= 0 ==> found == Some(
            &definitions@[definition_index(definitions@, id@)],
        ),
{
    let mut i: usize = 0;
    while i < definitions.len()
        invariant
            i <= definitions@.len(),
            definition_index(definitions@, id@) == index_from(definitions@, id@, i as int),
        decreases definitions@.len() - i,
    {
        if str_eq(definitions[i].mod_id.as_str(), id) {
            return Some(&definitions[i]);
        }
        i = i + 1;
    }
    None
}

/// Whether a list of strings contains `id`.
pub fn contains_text(list: &Vec<String>, id: &str) -> (found: bool)
    ensures
        found == texts(list@).contains(id@),
{
    let mut i: usize = 0;
    while i < list.len()
        invariant
            i <= list@.len(),
            forall|j: int| 0 <= j < i ==> list@[j]@ != id@,
        decreases list@.len() - i,
    {
        if str_eq(list[i].as_str(), id) {
            proof {
                assert(texts(list@)[i as int] == id@);
            }
            return true;
        }
        i = i + 1;
    }
    proof {
        if texts(list@).contains(id@) {
            let j = choose|j: int| 0 <= j < texts(list@).len() && texts(list@)[j] == id@;
            assert(list@[j]@ == id@);
        }
    }
    false
}

/// Compares two texts.
pub fn str_eq(a: &str, b: &str) -> (equal: bool)
    ensures
        equal == (a@ == b@),
{
    crate::text::str_equal(a, b)
}

fn visit_mod(
    id: &str,
    definitions: &Vec<ModDefinition>,
    visiting: &mut Vec<String>,
    resolved: &mut Vec<String>,
) -> (result: Result<(), ErrorResponse>)
    ensures
        match visit(definitions@, id@, texts(old(visiting)@), texts(old(resolved)@)) {
            Ok(done) => result is Ok && texts(final(resolved)@) == done && texts(final(visiting)@)
                == texts(old(visiting)@),
            Err(failure) => result matches Err(e) && e.code@ == resolve_failure_code(failure),
        },
    decreases unvisited(definitions@, texts(old(visiting)@), definitions@.len() as int), 0int,
{
    let ghost stack = texts(visiting@);
    if contains_text(resolved, id) {
        return Ok(());
    }
    if contains_text(visiting, id) {
        return Err(mod_error("catalog_invalid", "the mod dependency graph contained a cycle"));
    }
    let definition = match find_definition(definitions, id) {
        Some(definition) => definition,
        None => return Err(mod_error("mod_not_found", "a selected mod was not found")),
    };
    let ghost k = definition_index(definitions@, id@);
    proof {
        lemma_index_from(definitions@, id@, 0);
        lemma_unvisited_shrinks(definitions@, stack, id@, k, definitions@.len() as int);
    }
    visiting.push(id.to_string());
    proof {
        assert(texts(visiting@) =~= stack.push(id@));
    }
    let ghost pushed = texts(visiting@);
    let ghost deps = dependency_ids(*definition);
    let mut i: usize = 0;
    while i < definition.dependencies.len()
        invariant
            i <= definition.dependencies@.len(),
            deps == dependency_ids(*definition),
            deps.len() == definition.dependencies@.len(),
            texts(visiting@) == pushed,
            pushed == stack.push(id@),
            unvisited(definitions@, pushed, definitions@.len() as int) < unvisited(
                definitions@,
                stack,
                definitions@.len() as int,
            ),
            visit_all(definitions@, deps, 0, pushed, texts(old(resolved)@)) == visit_all(
                definitions@,
                deps,
                i as int,
                pushed,
                texts(resolved@),
            ),
            visit(definitions@, id@, stack, texts(old(resolved)@)) == match visit_all(
                definitions@,
                deps,
                0,
                pushed,
                texts(old(resolved)@),
            ) {
                Ok(done) => Ok(done.push(id@)),
                Err(failure) => Err(failure),
            },
            stack == texts(old(visiting)@),
        decreases definition.dependencies@.len() - i,
    {
        let dependency = definition.dependencies[i].mod_id.as_str();
        proof {
            assert(deps[i as int] == dependency@);
        }
        match visit_mod(dependency, definitions, visiting, resolved) {
            Ok(()) => {},
            Err(error) => return Err(error),
        }
        i = i + 1;
    }
    let ghost before_pop = visiting@;
    visiting.pop();
    proof {
        assert(visiting@ =~= before_pop.drop_last());
        assert forall|j: int| 0 <= j < stack.len() implies texts(visiting@)[j] == stack[j] by {
            assert(texts(before_pop)[j] == pushed[j]);
        }
        assert(texts(visiting@) =~= stack);
    }
    let ghost before = texts(resolved@);
    resolved.push(id.to_string());
    proof {
        assert(texts(resolved@) =~= before.push(id@));
    }
    Ok(())
}

/// Orders the requested mods and their transitive dependencies so that each
/// mod follows its dependencies. A dependency cycle is reported as
/// `catalog_invalid`, an unknown mod as `mod_not_found`.
pub fn resolve_install_set(definitions: &Vec<ModDefinition>, requested: &Vec<String>) -> (result:
    Result<Vec<String>, ErrorResponse>)
    ensures
        match install_order(definitions@, texts(requested@)) {
            Ok(order) => result matches Ok(resolved) && texts(resolved@) == order,
            Err(failure) => result matches Err(e) && e.code@ == resolve_failure_code(failure),
        },
{
    let mut resolved: Vec<String> = Vec::new();
    let mut visiting: Vec<String> = Vec::new();
    let ghost ids = texts(requested@);
    proof {
        assert(texts(resolved@) =~= Seq::<Seq<char>>::empty());
        assert(texts(visiting@) =~= Seq::<Seq<char>>::empty());
    }
    let mut i: usize = 0;
    while i < requested.len()
        invariant
            i <= requested@.len(),
            ids == texts(requested@),
            ids.len() == requested@.len(),
            texts(visiting@) == Seq::<Seq<char>>::empty(),
            install_order(definitions@, ids) == visit_all(
                definitions@,
                ids,
                i as int,
                Seq::empty(),
                texts(resolved@),
            ),
        decreases requested@.len() - i,
    {
        proof {
            assert(ids[i as int] == requested@[i as int]@);
        }
        match visit_mod(requested[i].as_str(), definitions, &mut visiting, &mut resolved) {
            Ok(()) => {},
            Err(error) => return Err(error),
        }
        i = i + 1;
    }
    Ok(resolved)
}


// ---------------------------------------------------------------------------
// What an install order guarantees.
// ---------------------------------------------------------------------------
/// The identifiers a mod in the catalog depends on.
pub open spec fn dependencies_of(definitions: Seq<ModDefinition>, id: Seq<char>) -> Seq<Seq<char>> {
    dependency_ids(definitions[definition_index(definitions, id)])
}

/// `x` stands in `order` before index `i`.
pub open spec fn placed_before(order: Seq<Seq<char>>, x: Seq<char>, i: int) -> bool {
    exists|j: int| 0 <= j < i && order[j] == x
}

/// The mod at index `i` is in the catalog and comes after every mod it
/// depends on.
pub open spec fn placed_after_dependencies(definitions: Seq<ModDefinition>, order: Seq<Seq<char>>, i: int) -> bool {
    &&& definition_index(definitions, order[i]) >= 0
    &&& forall|d: int|
        0 <= d < dependencies_of(definitions, order[i]).len() ==> placed_before(
            order,
            #[trigger] dependencies_of(definitions, order[i])[d],
            i,
        )
}

/// An order in which every mod is in the catalog, comes once, and comes
/// after the mods it depends on.
pub open spec fn dependency_first(definitions: Seq<ModDefinition>, order: Seq<Seq<char>>) -> bool {
    &&& crate::plan::no_repeats(order)
    &&& forall|i: int| 0 <= i < order.len() ==> #[trigger] placed_after_dependencies(definitions, order, i)
}

/// `done` is how `order` begins.
pub open spec fn begins_with(order: Seq<Seq<char>>, done: Seq<Seq<char>>) -> bool {
    done.len() <= order.len() && order.subrange(0, done.len() as int) == done
}

/// What a resolution that succeeds added was not being visited.
pub open spec fn added_outside(order: Seq<Seq<char>>, done: Seq<Seq<char>>, stack: Seq<Seq<char>>) -> bool {
    forall|x: Seq<char>| order.contains(x) && !done.contains(x) ==> !stack.contains(x)
}

proof fn lemma_extend_keeps_order(definitions: Seq<ModDefinition>, order: Seq<Seq<char>>, id: Seq<char>)
    requires
        dependency_first(definitions, order),
        !order.contains(id),
        definition_index(definitions, id) >= 0,
        forall|d: int|
            0 <= d < dependencies_of(definitions, id).len() ==> order.contains(
                #[trigger] dependencies_of(definitions, id)[d],
            ),
    ensures
        dependency_first(definitions, order.push(id)),
{
    let r = order.push(id);
    assert forall|i: int, j: int| 0 <= i < j < r.len() implies r[i] != r[j] by {
        if j == order.len() {
            assert(order[i] == r[i]);
        }
    }
    assert forall|i: int| 0 <= i < r.len() implies #[trigger] placed_after_dependencies(definitions, r, i) by {
        if i < order.len() {
            assert(r[i] == order[i]);
            assert(placed_after_dependencies(definitions, order, i));
            assert forall|d: int| 0 <= d < dependencies_of(definitions, r[i]).len() implies placed_before(
                r,
                #[trigger] dependencies_of(definitions, r[i])[d],
                i,
            ) by {
                let x = dependencies_of(definitions, order[i])[d];
                assert(placed_before(order, x, i));
                let j = choose|j: int| 0 <= j < i && order[j] == x;
                assert(r[j] == x);
            }
        } else {
            assert(r[i] == id);
            assert forall|d: int| 0 <= d < dependencies_of(definitions, r[i]).len() implies placed_before(
                r,
                #[trigger] dependencies_of(definitions, r[i])[d],
                i,
            ) by {
                let x = dependencies_of(definitions, id)[d];
                assert(order.contains(x));
                let j = choose|j: int| 0 <= j < order.len() && order[j] == x;
                assert(r[j] == x);
            }
        }
    }
}

proof fn lemma_visit(
    definitions: Seq<ModDefinition>,
    id: Seq<char>,
    stack: Seq<Seq<char>>,
    done: Seq<Seq<char>>,
)
    requires
        dependency_first(definitions, done),
    ensures
        visit(definitions, id, stack, done) matches Ok(r) ==> dependency_first(definitions, r) && r.contains(id)
            && begins_with(r, done) && added_outside(r, done, stack),
    decreases unvisited(definitions, stack, definitions.len() as int), 0int, 0int,
{
    if done.contains(id) {
        assert(done.subrange(0, done.len() as int) =~= done);
    } else if stack.contains(id) {
    } else {
        let k = definition_index(definitions, id);
        lemma_index_from(definitions, id, 0);
        if k >= 0 {
            lemma_unvisited_shrinks(definitions, stack, id, k, definitions.len() as int);
            let deps = dependency_ids(definitions[k]);
            lemma_visit_all(definitions, deps, 0, stack.push(id), done);
            match visit_all(definitions, deps, 0, stack.push(id), done) {
                Ok(resolved) => {
                    assert(!resolved.contains(id)) by {
                        if resolved.contains(id) {
                            assert(stack.push(id).contains(id)) by {
                                assert(stack.push(id)[stack.len() as int] == id);
                            }
                        }
                    }
                    assert(dependencies_of(definitions, id) == deps);
                    lemma_extend_keeps_order(definitions, resolved, id);
                    let r = resolved.push(id);
                    assert(r[resolved.len() as int] == id);
                    assert(r.subrange(0, done.len() as int) =~= resolved.subrange(0, done.len() as int));
                    assert forall|x: Seq<char>| r.contains(x) && !done.contains(x) implies !stack.contains(x) by {
                        if x != id {
                            let j = choose|j: int| 0 <= j < r.len() && r[j] == x;
                            assert(resolved[j] == x);
                            assert(resolved.contains(x));
                            if stack.contains(x) {
                                let q = choose|q: int| 0 <= q < stack.len() && stack[q] == x;
                                assert(stack.push(id)[q] == x);
                            }
                        }
                    }
                },
                Err(_) => {},
            }
        }
    }
}

proof fn lemma_visit_all(
    definitions: Seq<ModDefinition>,
    ids: Seq<Seq<char>>,
    i: int,
    stack: Seq<Seq<char>>,
    done: Seq<Seq<char>>,
)
    requires
        dependency_first(definitions, done),
        0 <= i,
    ensures
        visit_all(definitions, ids, i, stack, done) matches Ok(r) ==> dependency_first(definitions, r) && begins_with(
            r,
            done,
        ) && added_outside(r, done, stack) && forall|j: int| i <= j < ids.len() ==> r.contains(#[trigger] ids[j]),
    decreases unvisited(definitions, stack, definitions.len() as int), 1int, ids.len() - i,
{
    if i >= ids.len() {
        assert(done.subrange(0, done.len() as int) =~= done);
    } else {
        lemma_visit(definitions, ids[i], stack, done);
        match visit(definitions, ids[i], stack, done) {
            Ok(resolved) => {
                lemma_visit_all(definitions, ids, i + 1, stack, resolved);
                match visit_all(definitions, ids, i + 1, stack, resolved) {
                    Ok(r) => {
                        assert(r.subrange(0, done.len() as int) =~= r.subrange(0, resolved.len() as int).subrange(
                            0,
                            done.len() as int,
                        ));
                        assert forall|x: Seq<char>| r.contains(x) && !done.contains(x) implies !stack.contains(x) by {
                            if resolved.contains(x) {
                            } else {
                            }
                        }
                        assert forall|j: int| i <= j < ids.len() implies r.contains(#[trigger] ids[j]) by {
                            if j == i {
                                let q = choose|q: int| 0 <= q < resolved.len() && resolved[q] == ids[i];
                                assert(r.subrange(0, resolved.len() as int)[q] == ids[i]);
                                assert(r[q] == ids[i]);
                            }
                        }
                    },
                    Err(_) => {},
                }
            },
            Err(_) => {},
        }
    }
}

/// Resolving an install set orders it dependency first: every mod of a
/// resolved order is in the catalog and comes after the mods it depends
/// on, no mod comes twice, and every requested mod is in the order.
pub proof fn install_order_is_dependency_first(definitions: Seq<ModDefinition>, requested: Seq<Seq<char>>)
    ensures
        install_order(definitions, requested) matches Ok(order) ==> dependency_first(definitions, order) && forall|
            j: int,
        | 0 <= j < requested.len() ==> order.contains(#[trigger] requested[j]),
{
    lemma_visit_all(definitions, requested, 0, Seq::empty(), Seq::empty());
}


/// The mod at index `p` of `order` is one of `ids[from..]`, or a dependency
/// of a mod that comes after it.
pub open spec fn needed_at(
    definitions: Seq<ModDefinition>,
    order: Seq<Seq<char>>,
    ids: Seq<Seq<char>>,
    from: int,
    p: int,
) -> bool {
    ||| exists|q: int| from <= q < ids.len() && #[trigger] ids[q] == order[p]
    ||| exists|j: int| p < j < order.len() && #[trigger] dependencies_of(definitions, order[j]).contains(order[p])
}

proof fn lemma_visit_needed(
    definitions: Seq<ModDefinition>,
    id: Seq<char>,
    stack: Seq<Seq<char>>,
    done: Seq<Seq<char>>,
)
    requires
        dependency_first(definitions, done),
    ensures
        visit(definitions, id, stack, done) matches Ok(r) ==> forall|p: int|
            done.len() <= p < r.len() ==> #[trigger] needed_at(definitions, r, seq![id], 0, p),
    decreases unvisited(definitions, stack, definitions.len() as int), 0int, 0int,
{
    if done.contains(id) {
    } else if stack.contains(id) {
    } else {
        let k = definition_index(definitions, id);
        lemma_index_from(definitions, id, 0);
        if k >= 0 {
            lemma_unvisited_shrinks(definitions, stack, id, k, definitions.len() as int);
            let deps = dependency_ids(definitions[k]);
            lemma_visit_all_needed(definitions, deps, 0, stack.push(id), done);
            match visit_all(definitions, deps, 0, stack.push(id), done) {
                Ok(resolved) => {
                    let r = resolved.push(id);
                    let last = resolved.len() as int;
                    assert(r[last] == id);
                    assert(dependencies_of(definitions, id) == deps);
                    assert forall|p: int| done.len() <= p < r.len() implies #[trigger] needed_at(
                        definitions,
                        r,
                        seq![id],
                        0,
                        p,
                    ) by {
                        if p == last {
                            assert(seq![id][0] == r[p]);
                        } else {
                            assert(r[p] == resolved[p]);
                            assert(needed_at(definitions, resolved, deps, 0, p));
                            if exists|q: int| 0 <= q < deps.len() && #[trigger] deps[q] == resolved[p] {
                                let q = choose|q: int| 0 <= q < deps.len() && #[trigger] deps[q] == resolved[p];
                                assert(dependencies_of(definitions, r[last])[q] == r[p]);
                                assert(dependencies_of(definitions, r[last]).contains(r[p]));
                            } else {
                                let j = choose|j: int|
                                    p < j < resolved.len() && #[trigger] dependencies_of(
                                        definitions,
                                        resolved[j],
                                    ).contains(resolved[p]);
                                assert(r[j] == resolved[j]);
                                assert(dependencies_of(definitions, r[j]).contains(r[p]));
                            }
                        }
                    }
                },
                Err(_) => {},
            }
        }
    }
}

proof fn lemma_visit_all_needed(
    definitions: Seq<ModDefinition>,
    ids: Seq<Seq<char>>,
    i: int,
    stack: Seq<Seq<char>>,
    done: Seq<Seq<char>>,
)
    requires
        dependency_first(definitions, done),
        0 <= i,
    ensures
        visit_all(definitions, ids, i, stack, done) matches Ok(r) ==> forall|p: int|
            done.len() <= p < r.len() ==> #[trigger] needed_at(definitions, r, ids, i, p),
    decreases unvisited(definitions, stack, definitions.len() as int), 1int, ids.len() - i,
{
    if i < ids.len() {
        lemma_visit(definitions, ids[i], stack, done);
        lemma_visit_needed(definitions, ids[i], stack, done);
        match visit(definitions, ids[i], stack, done) {
            Ok(resolved) => {
                lemma_visit_all(definitions, ids, i + 1, stack, resolved);
                lemma_visit_all_needed(definitions, ids, i + 1, stack, resolved);
                match visit_all(definitions, ids, i + 1, stack, resolved) {
                    Ok(r) => {
                        assert forall|p: int| done.len() <= p < r.len() implies #[trigger] needed_at(
                            definitions,
                            r,
                            ids,
                            i,
                            p,
                        ) by {
                            if p < resolved.len() {
                                assert(r.subrange(0, resolved.len() as int)[p] == resolved[p]);
                                assert(r[p] == resolved[p]);
                                assert(needed_at(definitions, resolved, seq![ids[i]], 0, p));
                                if exists|q: int| 0 <= q < 1 && #[trigger] seq![ids[i]][q] == resolved[p] {
                                    assert(seq![ids[i]][0] == ids[i]);
                                    assert(ids[i] == r[p]);
                                } else {
                                    let j = choose|j: int|
                                        p < j < resolved.len() && #[trigger] dependencies_of(
                                            definitions,
                                            resolved[j],
                                        ).contains(resolved[p]);
                                    assert(r.subrange(0, resolved.len() as int)[j] == resolved[j]);
                                    assert(r[j] == resolved[j]);
                                    assert(dependencies_of(definitions, r[j]).contains(r[p]));
                                }
                            } else {
                                assert(needed_at(definitions, r, ids, i + 1, p));
                            }
                        }
                    },
                    Err(_) => {},
                }
            },
            Err(_) => {},
        }
    }
}

/// A resolved install order holds only what the request needs: every mod
/// in it was requested, or is a dependency of a mod that comes after it in
/// the order.
pub proof fn install_order_holds_only_needed_mods(definitions: Seq<ModDefinition>, requested: Seq<Seq<char>>)
    ensures
        install_order(definitions, requested) matches Ok(order) ==> forall|p: int|
            0 <= p < order.len() ==> requested.contains(#[trigger] order[p]) || exists|j: int|
                p < j < order.len() && dependencies_of(definitions, order[j]).contains(order[p]),
{
    lemma_visit_all_needed(definitions, requested, 0, Seq::empty(), Seq::empty());
    match install_order(definitions, requested) {
        Ok(order) => {
            assert forall|p: int| 0 <= p < order.len() implies requested.contains(#[trigger] order[p]) || exists|
                j: int,
            | p < j < order.len() && dependencies_of(definitions, order[j]).contains(order[p]) by {
                assert(needed_at(definitions, order, requested, 0, p));
            }
        },
        Err(_) => {},
    }
}

} // verus!
