//! Which loopback number each camera has, kept across replugs and restarts.
use vstd::prelude::*;

use crate::table::Table;
use crate::text::str_eq;

verus! {

/// Where the assignments are kept across restarts.
pub const PERSISTENT_DEVICES_FILE: &'static str = "/var/lib/cam-shim/devices.json";

/// Where the assignments were kept once: read, no longer written.
pub const RUNTIME_DEVICES_FILE: &'static str = "/run/cam-shim/devices.json";

/// Where the assignments are kept.
pub const DEVICES_FILE: &'static str = PERSISTENT_DEVICES_FILE;

/// The loopback number of a camera, and the label of its virtual camera.
#[derive(Debug)]
pub struct LoopbackAssignment {
    pub loopback_index: u32,
    pub label: String,
}

impl View for LoopbackAssignment {
    type V = (u32, Seq<char>);

    open spec fn view(&self) -> (u32, Seq<char>) {
        (self.loopback_index, self.label@)
    }
}

impl Clone for LoopbackAssignment {
    fn clone(&self) -> (r: Self)
        ensures
            r == *self,
    {
        LoopbackAssignment { loopback_index: self.loopback_index, label: self.label.clone() }
    }
}

/// The assignments, by camera.
#[derive(Debug)]
pub struct DeviceRegistry {
    pub updated_at_ms: u64,
    pub assignments: Table<LoopbackAssignment>,
}

/// A registry is what it assigns; when it was last changed is not part of that.
impl View for DeviceRegistry {
    type V = Map<Seq<char>, (u32, Seq<char>)>;

    open spec fn view(&self) -> Map<Seq<char>, (u32, Seq<char>)> {
        self.assignments@.map_values(|a: LoopbackAssignment| a@)
    }
}

impl Default for DeviceRegistry {
    fn default() -> (r: Self)
        ensures
            r.updated_at_ms == 0,
            r@ == Map::<Seq<char>, (u32, Seq<char>)>::empty(),
    {
        let r = DeviceRegistry { updated_at_ms: 0, assignments: Table::new() };
        assert(r@ =~= Map::<Seq<char>, (u32, Seq<char>)>::empty());
        r
    }
}

/// The later of two times.
pub open spec fn later(a: u64, b: u64) -> u64 {
    if a < b {
        b
    } else {
        a
    }
}

/// The assignments of two registries; where both know a camera, the first one counts.
pub open spec fn merged_assignments(
    primary: Map<Seq<char>, (u32, Seq<char>)>,
    secondary: Map<Seq<char>, (u32, Seq<char>)>,
) -> Map<Seq<char>, (u32, Seq<char>)> {
    secondary.union_prefer_right(primary)
}

/// Adds the assignments of `secondary` for cameras that `primary` does not know.
pub fn merge_registries(primary: DeviceRegistry, secondary: &DeviceRegistry) -> (r: DeviceRegistry)
    ensures
        r@ == merged_assignments(primary@, secondary@),
        r@ == secondary@.union_prefer_right(primary@),
        r.updated_at_ms == later(primary.updated_at_ms, secondary.updated_at_ms),
{
    let ghost first = primary@;
    let ghost second = secondary@;
    let mut merged = primary;
    let mut i: usize = 0;
    let n: usize = secondary.assignments.len();
    let ghost keys = secondary.assignments.keys();
    while i < n
        invariant
            i <= n,
            n == keys.len(),
            keys == secondary.assignments.keys(),
            second == secondary@,
            first == primary@,
            merged.updated_at_ms == primary.updated_at_ms,
            forall|k: Seq<char>| #[trigger]
                merged@.contains_key(k) <==> first.contains_key(k) || keys.take(
                    i as int,
                ).contains(k),
            forall|k: Seq<char>| #[trigger]
                merged@.contains_key(k) ==> merged@[k] == if first.contains_key(k) {
                    first[k]
                } else {
                    second[k]
                },
            forall|k: Seq<char>| #[trigger] second.contains_key(k) <==> keys.contains(k),
        decreases n - i,
    {
        let ghost before = merged@;
        let ghost known = merged.assignments@;
        let ghost key = keys[i as int];
        proof {
            assert(keys.take(i + 1) =~= keys.take(i as int).push(key));
            assert forall|k: Seq<char>| #[trigger] keys.take(i + 1).contains(k) <==> keys.take(
                i as int,
            ).contains(k) || k == key by {
                crate::order::lemma_push_contains(keys.take(i as int), key, k);
            }
        }
        let name = secondary.assignments.key_at(i);
        if !merged.assignments.contains_key(name) {
            let assignment = secondary.assignments.value_at(i).clone();
            merged.assignments.insert(name.clone(), assignment);
            proof {
                assert(!before.contains_key(key));
                assert(second[key] == assignment@);
                assert(merged@ =~= before.insert(key, assignment@));
            }
        } else {
            assert(before.contains_key(key));
        }
        i += 1;
    }
    assert(keys.take(i as int) =~= keys);
    assert(merged@ =~= second.union_prefer_right(first));
    if merged.updated_at_ms < secondary.updated_at_ms {
        merged.updated_at_ms = secondary.updated_at_ms;
    }
    merged
}

/// The assignments of a file that may be missing.
pub open spec fn assignments_or_none(registry: Option<DeviceRegistry>) -> Map<
    Seq<char>,
    (u32, Seq<char>),
> {
    match registry {
        Some(registry) => registry@,
        None => Map::empty(),
    }
}

/// When a file that may be missing was written.
pub open spec fn updated_or_zero(registry: Option<DeviceRegistry>) -> u64 {
    match registry {
        Some(registry) => registry.updated_at_ms,
        None => 0,
    }
}

/// The registry, from what the persistent and the runtime file hold. A persistent assignment goes
/// before one of the runtime file.
pub fn read_device_registry(
    persistent: Option<DeviceRegistry>,
    runtime: Option<DeviceRegistry>,
) -> (r: DeviceRegistry)
    ensures
        r@ == merged_assignments(assignments_or_none(persistent), assignments_or_none(runtime)),
        r@ == assignments_or_none(runtime).union_prefer_right(assignments_or_none(persistent)),
        r.updated_at_ms == later(updated_or_zero(persistent), updated_or_zero(runtime)),
{
    let primary = match persistent {
        Some(registry) => registry,
        None => DeviceRegistry::default(),
    };
    let secondary = match runtime {
        Some(registry) => registry,
        None => DeviceRegistry::default(),
    };
    merge_registries(primary, &secondary)
}

/// Every assignment of `a` is one of `b`.
fn within(a: &DeviceRegistry, b: &DeviceRegistry) -> (r: bool)
    ensures
        r <==> forall|k: Seq<char>| #[trigger]
            a@.contains_key(k) ==> b@.contains_key(k) && b@[k] == a@[k],
{
    let n: usize = a.assignments.len();
    let ghost keys = a.assignments.keys();
    let mut i: usize = 0;
    while i < n
        invariant
            i <= n,
            n == keys.len(),
            keys == a.assignments.keys(),
            forall|k: Seq<char>| #[trigger] a.assignments@.contains_key(k) <==> keys.contains(k),
            forall|j: int|
                0 <= j < i ==> b@.contains_key(#[trigger] keys[j]) && b@[keys[j]] == a@[keys[j]],
        decreases n - i,
    {
        let key = a.assignments.key_at(i);
        let value = a.assignments.value_at(i);
        assert(a@.contains_key(keys[i as int]));
        assert(a@[keys[i as int]] == value@);
        match b.assignments.get(key) {
            None => {
                assert(!b@.contains_key(keys[i as int]));
                return false;
            },
            Some(other) => {
                assert(b@[keys[i as int]] == other@);
                if other.loopback_index != value.loopback_index || !str_eq(
                    &other.label,
                    &value.label,
                ) {
                    assert(other@ != value@);
                    return false;
                }
            },
        }
        i += 1;
    }
    assert forall|k: Seq<char>| #[trigger] a@.contains_key(k) implies b@.contains_key(k) && b@[k]
        == a@[k] by {
        assert(a.assignments@.contains_key(k));
        let j = choose|j: int| 0 <= j < keys.len() && keys[j] == k;
        assert(b@.contains_key(keys[j]));
    }
    true
}

/// The assignments of the runtime file have to be written to the persistent one.
pub open spec fn must_migrate(
    merged: Map<Seq<char>, (u32, Seq<char>)>,
    persistent: Map<Seq<char>, (u32, Seq<char>)>,
) -> bool {
    merged != persistent
}

/// Assignments have to be written exactly when the runtime file knows a camera that the persistent one
/// does not; once they are written, that is over.
pub proof fn lemma_migration_is_needed(
    persistent: Map<Seq<char>, (u32, Seq<char>)>,
    runtime: Map<Seq<char>, (u32, Seq<char>)>,
)
    ensures
        must_migrate(merged_assignments(persistent, runtime), persistent) <==> exists|
            key: Seq<char>,
        | #[trigger] runtime.contains_key(key) && !persistent.contains_key(key),
        !must_migrate(
            merged_assignments(merged_assignments(persistent, runtime), runtime),
            merged_assignments(persistent, runtime),
        ),
{
    let merged = merged_assignments(persistent, runtime);
    assert(merged_assignments(merged, runtime) =~= merged);
    if exists|key: Seq<char>| #[trigger]
        runtime.contains_key(key) && !persistent.contains_key(key) {
        let key = choose|key: Seq<char>| #[trigger]
            runtime.contains_key(key) && !persistent.contains_key(key);
        assert(merged.contains_key(key));
    } else {
        assert(merged =~= persistent);
    }
}

/// The later of two times is one of them, and neither is later.
pub proof fn lemma_later(a: u64, b: u64)
    ensures
        later(a, b) >= a,
        later(a, b) >= b,
        later(a, b) == a || later(a, b) == b,
{
}

/// Whether the assignments of the runtime file have to be written to the persistent one: where the
/// merged assignments are not those of the persistent file.
pub fn needs_migration(merged: &DeviceRegistry, persistent: &DeviceRegistry) -> (r: bool)
    ensures
        r == must_migrate(merged@, persistent@),
        r <==> merged@ != persistent@,
{
    let same = within(merged, persistent) && within(persistent, merged);
    proof {
        if same {
            assert(merged@ =~= persistent@);
        }
    }
    !same
}

/// The number that assignments give to a camera.
pub open spec fn number_of(
    assignments: Map<Seq<char>, (u32, Seq<char>)>,
    camera_key: Seq<char>,
) -> Option<u32> {
    if assignments.contains_key(camera_key) {
        Some(assignments[camera_key].0)
    } else {
        None
    }
}

/// The assignments with one more.
pub open spec fn with_assignment(
    assignments: Map<Seq<char>, (u32, Seq<char>)>,
    camera_key: Seq<char>,
    loopback_index: u32,
    label: Seq<char>,
) -> Map<Seq<char>, (u32, Seq<char>)> {
    assignments.insert(camera_key, (loopback_index, label))
}

/// The loopback number of a camera.
pub fn lookup_loopback_index(registry: &DeviceRegistry, camera_key: &str) -> (r: Option<u32>)
    ensures
        r == number_of(registry@, camera_key@),
        r == if registry@.contains_key(camera_key@) {
            Some(registry@[camera_key@].0)
        } else {
            None
        },
{
    match registry.assignments.get(camera_key) {
        Some(assignment) => Some(assignment.loopback_index),
        None => None,
    }
}

/// Notes the loopback number of a camera.
pub fn assign_loopback_index(
    registry: &mut DeviceRegistry,
    camera_key: &str,
    loopback_index: u32,
    label: &str,
    now_ms: u64,
)
    ensures
        final(registry)@ == with_assignment(
            old(registry)@,
            camera_key@,
            loopback_index,
            label@,
        ),
        final(registry)@ == old(registry)@.insert(camera_key@, (loopback_index, label@)),
        final(registry).updated_at_ms == now_ms,
{
    let ghost before = registry@;
    let ghost assignments = registry.assignments@;
    registry.updated_at_ms = now_ms;
    registry.assignments.insert(
        camera_key.to_string(),
        LoopbackAssignment { loopback_index, label: label.to_string() },
    );
    assert(registry@ =~= before.insert(camera_key@, (loopback_index, label@)));
}

/// A number that was assigned is looked up again, also once the registry was merged with an older
/// runtime file, and no other camera's assignment changes.
pub proof fn lemma_assignment_is_kept(
    registry: Map<Seq<char>, (u32, Seq<char>)>,
    runtime: Map<Seq<char>, (u32, Seq<char>)>,
    camera_key: Seq<char>,
    assignment: (u32, Seq<char>),
    other_key: Seq<char>,
)
    requires
        other_key != camera_key,
    ensures
        ({
            let assigned = with_assignment(registry, camera_key, assignment.0, assignment.1);
            let read = merged_assignments(assigned, runtime);
            &&& number_of(assigned, camera_key) == Some(assignment.0)
            &&& number_of(read, camera_key) == Some(assignment.0)
            &&& number_of(assigned, other_key) == number_of(registry, other_key)
            &&& number_of(registry, other_key) is Some ==> number_of(read, other_key) == number_of(
                registry,
                other_key,
            )
            &&& number_of(registry, other_key) is None ==> number_of(read, other_key) == number_of(
                runtime,
                other_key,
            )
            &&& read.contains_key(camera_key) && read[camera_key] == assignment
            &&& assigned.contains_key(other_key) == registry.contains_key(other_key)
            &&& registry.contains_key(other_key) ==> assigned[other_key] == registry[other_key]
                && read[other_key] == registry[other_key]
        }),
{
}

/// Reading the registry again after its runtime file was migrated gives the same assignments.
pub proof fn lemma_migration_keeps_assignments(
    persistent: Map<Seq<char>, (u32, Seq<char>)>,
    runtime: Map<Seq<char>, (u32, Seq<char>)>,
)
    ensures
        ({
            let merged = merged_assignments(persistent, runtime);
            &&& merged_assignments(merged, Map::empty()) == merged
            &&& merged_assignments(merged, runtime) == merged
            &&& forall|key: Seq<char>| #[trigger]
                merged.contains_key(key) <==> persistent.contains_key(key) || runtime.contains_key(
                    key,
                )
            &&& forall|key: Seq<char>| #[trigger]
                merged.contains_key(key) ==> merged[key] == if persistent.contains_key(key) {
                    persistent[key]
                } else {
                    runtime[key]
                }
        }),
{
    let merged = merged_assignments(persistent, runtime);
    assert(merged_assignments(merged, Map::empty()) =~= merged);
    assert(merged_assignments(merged, runtime) =~= merged);
}

} // verus!
