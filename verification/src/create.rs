//! Making loopback devices.
use vstd::prelude::*;

use crate::compat::{kernel_card_label_bytes, kernel_label_field};
use crate::device_registry::{
    lookup_loopback_index, merged_assignments, with_assignment, DeviceRegistry,
};
use crate::error::CamShimError;
use crate::loopback::LoopbackDevice;
use crate::text::{
    concat2, concat3, decimal, decimal_of, has_text, opt_text, parse_number, parsed_number, starts_with, str_eq,
    strip_prefix, texts, without_prefix,
};

verus! {

broadcast use crate::text::group_texts;

/// The first number that new loopback devices take, so that physical cameras keep the low ones.
pub const PREFERRED_LOOPBACK_NR_START: i32 = 10;

/// The last number that new loopback devices take.
pub const PREFERRED_LOOPBACK_NR_END: i32 = 63;

/// The name of the video node with the given number.
pub open spec fn node_name(nr: nat) -> Seq<char> {
    "video"@ + decimal(nr)
}

/// No node has the given number.
pub open spec fn is_free(nodes: Seq<String>, nr: int) -> bool {
    !texts(nodes).contains(node_name(nr as nat))
}

fn number_is_free(nodes: &Vec<String>, nr: u32) -> (r: bool)
    ensures
        r == is_free(nodes@, nr as int),
{
    !has_text(nodes, &concat2("video", &decimal_of(nr as u64)))
}

/// `nr` is the lowest number from the preferred range that meets `p`, or -1 where none does.
pub open spec fn lowest_preferred(p: spec_fn(int) -> bool, nr: i32) -> bool {
    if nr == -1 {
        forall|k: int| 10 <= k <= 63 ==> !#[trigger] p(k)
    } else {
        &&& 10 <= nr <= 63
        &&& p(nr as int)
        &&& forall|k: int| 10 <= k < nr ==> !#[trigger] p(k)
    }
}

/// Free numbers, as a predicate.
pub open spec fn free_number(nodes: Seq<String>) -> spec_fn(int) -> bool {
    |nr: int| is_free(nodes, nr)
}

/// The number for a new loopback device: the lowest free one from the preferred range, or -1,
/// which leaves the choice to the kernel.
pub fn preferred_loopback_output_nr(nodes: &Vec<String>) -> (r: i32)
    ensures
        lowest_preferred(free_number(nodes@), r),
{
    let mut nr: i32 = PREFERRED_LOOPBACK_NR_START;
    while nr <= PREFERRED_LOOPBACK_NR_END
        invariant
            10 <= nr <= 64,
            forall|k: int| 10 <= k < nr ==> !#[trigger] free_number(nodes@)(k),
        decreases 64 - nr,
    {
        if number_is_free(nodes, nr as u32) {
            assert(free_number(nodes@)(nr as int));
            return nr;
        }
        nr += 1;
    }
    -1
}

/// The number belongs to a camera other than the given one.
pub open spec fn reserved(registry: DeviceRegistry, camera_key: Seq<char>, nr: int) -> bool {
    exists|key: Seq<char>| #[trigger]
        registry@.contains_key(key) && key != camera_key && registry@[key].0 == nr
}

/// Numbers that are free and belong to no other camera.
pub open spec fn open_number(
    nodes: Seq<String>,
    registry: DeviceRegistry,
    camera_key: Seq<char>,
) -> spec_fn(int) -> bool {
    |nr: int| is_free(nodes, nr) && !reserved(registry, camera_key, nr)
}

fn number_is_reserved(registry: &DeviceRegistry, camera_key: &str, nr: u32) -> (r: bool)
    ensures
        r == reserved(*registry, camera_key@, nr as int),
{
    let n: usize = registry.assignments.len();
    let ghost keys = registry.assignments.keys();
    let mut i: usize = 0;
    while i < n
        invariant
            i <= n,
            n == keys.len(),
            keys == registry.assignments.keys(),
            forall|j: int|
                0 <= j < i ==> !((#[trigger] keys[j]) != camera_key@ && registry@[keys[j]].0 == nr),
            forall|key: Seq<char>| #[trigger]
                registry.assignments@.contains_key(key) <==> keys.contains(key),
        decreases n - i,
    {
        let key = registry.assignments.key_at(i);
        let value = registry.assignments.value_at(i);
        assert(registry@.contains_key(keys[i as int]));
        assert(registry@[keys[i as int]] == value@);
        if !str_eq(key, camera_key) && value.loopback_index == nr {
            return true;
        }
        i += 1;
    }
    proof {
        if reserved(*registry, camera_key@, nr as int) {
            let key = choose|key: Seq<char>| #[trigger]
                registry@.contains_key(key) && key != camera_key@ && registry@[key].0 == nr;
            assert(registry.assignments@.contains_key(key));
            let j = choose|j: int| 0 <= j < keys.len() && keys[j] == key;
            assert(keys[j] == key);
        }
    }
    false
}

/// What a new loopback device is made for.
#[derive(Debug)]
pub struct CreateDeviceOptions {
    /// The camera whose loopback number is kept, if there is one.
    pub camera_key: Option<String>,
}

impl Default for CreateDeviceOptions {
    fn default() -> (r: Self)
        ensures
            r.camera_key is None,
    {
        CreateDeviceOptions { camera_key: None }
    }
}

impl CreateDeviceOptions {
    /// A loopback device that keeps the number of the camera.
    pub fn for_camera(camera_key: &str) -> (r: Self)
        ensures
            opt_text(r.camera_key) == Some(camera_key@),
    {
        CreateDeviceOptions { camera_key: Some(camera_key.to_string()) }
    }
}

/// The number for the loopback device of a camera: the one that it had, if that is free; else the
/// lowest free one from the preferred range that belongs to no other camera; else the lowest free
/// one; else -1.
pub open spec fn is_camera_number(
    nodes: Seq<String>,
    registry: DeviceRegistry,
    camera_key: Seq<char>,
    nr: i32,
) -> bool {
    if registry@.contains_key(camera_key) && registry@[camera_key].0 <= i32::MAX && is_free(
        nodes,
        registry@[camera_key].0 as int,
    ) {
        nr == registry@[camera_key].0
    } else if lowest_preferred(open_number(nodes, registry, camera_key), -1i32) {
        lowest_preferred(free_number(nodes), nr)
    } else {
        lowest_preferred(open_number(nodes, registry, camera_key), nr)
    }
}

/// The number to ask for when a loopback device is made.
pub fn loopback_output_nr(
    options: &CreateDeviceOptions,
    nodes: &Vec<String>,
    registry: &DeviceRegistry,
) -> (r: i32)
    ensures
        match options.camera_key {
            None => lowest_preferred(free_number(nodes@), r),
            Some(key) => is_camera_number(nodes@, *registry, key@, r),
        },
{
    let camera_key = match &options.camera_key {
        Some(key) => key,
        None => {
            return preferred_loopback_output_nr(nodes);
        },
    };
    if let Some(index) = lookup_loopback_index(registry, camera_key) {
        if index <= i32::MAX as u32 && number_is_free(nodes, index) {
            return index as i32;
        }
    }
    let ghost p = open_number(nodes@, *registry, camera_key@);
    let mut nr: i32 = PREFERRED_LOOPBACK_NR_START;
    while nr <= PREFERRED_LOOPBACK_NR_END
        invariant
            10 <= nr <= 64,
            p == open_number(nodes@, *registry, camera_key@),
            options.camera_key == Some(*camera_key),
            !(registry@.contains_key(camera_key@) && registry@[camera_key@].0 <= i32::MAX
                && is_free(nodes@, registry@[camera_key@].0 as int)),
            forall|k: int| 10 <= k < nr ==> !#[trigger] p(k),
        decreases 64 - nr,
    {
        if number_is_free(nodes, nr as u32) && !number_is_reserved(
            registry,
            camera_key,
            nr as u32,
        ) {
            assert(p(nr as int));
            return nr;
        }
        nr += 1;
    }
    preferred_loopback_output_nr(nodes)
}

/// A new loopback device gets the lowest number from 10 to 63 that no video node has. The choice is
/// left to the kernel, by -1, exactly when every one of them is taken.
pub proof fn lemma_lowest_free_number(nodes: Seq<String>, nr: i32)
    requires
        lowest_preferred(free_number(nodes), nr),
    ensures
        nr == -1 <==> forall|k: int|
            10 <= k <= 63 ==> texts(nodes).contains("video"@ + #[trigger] decimal(k as nat)),
        nr != -1 ==> 10 <= nr <= 63 && !texts(nodes).contains("video"@ + decimal(nr as nat))
            && forall|k: int|
            10 <= k < nr ==> texts(nodes).contains("video"@ + #[trigger] decimal(k as nat)),
{
    let p = free_number(nodes);
    assert forall|k: int| #[trigger] p(k) == !texts(nodes).contains(
        "video"@ + decimal(k as nat),
    ) by {}
    if nr == -1 {
        assert forall|k: int| 10 <= k <= 63 implies texts(nodes).contains(
            "video"@ + #[trigger] decimal(k as nat),
        ) by {
            assert(!p(k));
        }
    } else {
        assert(p(nr as int));
        assert forall|k: int| 10 <= k < nr implies texts(nodes).contains(
            "video"@ + #[trigger] decimal(k as nat),
        ) by {
            assert(!p(k));
        }
    }
}

/// The number for the loopback device of a camera is taken by no video node. Unless it is the one
/// that is noted for the camera, it is from 10 to 63; it belongs to another camera only where every
/// such number that is free does. The choice is left to the kernel only where all are taken.
pub proof fn lemma_camera_number(
    nodes: Seq<String>,
    registry: DeviceRegistry,
    camera_key: Seq<char>,
    nr: i32,
    k: int,
)
    requires
        is_camera_number(nodes, registry, camera_key, nr),
        10 <= k <= 63,
        !texts(nodes).contains("video"@ + decimal(k as nat)),
    ensures
        nr >= 0,
        !texts(nodes).contains("video"@ + decimal(nr as nat)),
        !registry@.contains_key(camera_key) || registry@[camera_key].0 != nr ==> 10 <= nr <= 63,
        (exists|key: Seq<char>| #[trigger]
            registry@.contains_key(key) && key != camera_key && registry@[key].0 == nr) && (
        !registry@.contains_key(camera_key) || registry@[camera_key].0 != nr) ==> exists|
            key: Seq<char>,
        | #[trigger] registry@.contains_key(key) && key != camera_key && registry@[key].0 == k,
{
    let free = free_number(nodes);
    let open = open_number(nodes, registry, camera_key);
    assert(free(k));
    if lowest_preferred(open, -1i32) {
        assert(!open(k));
    }
}

/// A camera gets the loopback number that it has in the registry whenever no node has taken it.
pub proof fn lemma_stable_loopback_index(
    nodes: Seq<String>,
    registry: DeviceRegistry,
    camera_key: Seq<char>,
    nr: i32,
)
    requires
        is_camera_number(nodes, registry, camera_key, nr),
        registry@.contains_key(camera_key),
        registry@[camera_key].0 <= i32::MAX,
        is_free(nodes, registry@[camera_key].0 as int),
    ensures
        nr == registry@[camera_key].0,
{
}

/// A camera without a number takes none that belongs to another camera, as long as the preferred
/// range holds another one.
pub proof fn lemma_new_index_is_not_reserved(
    nodes: Seq<String>,
    registry: DeviceRegistry,
    camera_key: Seq<char>,
    nr: i32,
    other: int,
)
    requires
        is_camera_number(nodes, registry, camera_key, nr),
        !registry@.contains_key(camera_key),
        10 <= other <= 63,
        is_free(nodes, other),
        !reserved(registry, camera_key, other),
    ensures
        10 <= nr <= other,
        !reserved(registry, camera_key, nr as int),
        is_free(nodes, nr as int),
{
    let p = open_number(nodes, registry, camera_key);
    assert(p(other));
    if nr == -1 {
        assert(!p(other));
    }
    assert(p(nr as int));
}

/// A camera gets the loopback number that was noted for it again once the registry was read anew,
/// whatever the runtime file of an earlier version holds, as long as no node has taken the number.
pub proof fn lemma_number_survives_restart(
    registry: Map<Seq<char>, (u32, Seq<char>)>,
    runtime: Map<Seq<char>, (u32, Seq<char>)>,
    camera_key: Seq<char>,
    assignment: (u32, Seq<char>),
    reread: DeviceRegistry,
    nodes: Seq<String>,
    nr: i32,
)
    requires
        reread@ == merged_assignments(
            with_assignment(registry, camera_key, assignment.0, assignment.1),
            runtime,
        ),
        assignment.0 <= i32::MAX,
        is_free(nodes, assignment.0 as int),
        is_camera_number(nodes, reread, camera_key, nr),
    ensures
        nr == assignment.0,
{
}

/// What the control device is asked for, as the kernel module lays it out.
#[derive(Debug, Clone, Copy)]
pub struct V4l2LoopbackConfig {
    pub output_nr: i32,
    pub unused: i32,
    pub card_label: [u8; 32],
    pub min_width: u32,
    pub max_width: u32,
    pub min_height: u32,
    pub max_height: u32,
    pub max_buffers: i32,
    pub max_openers: i32,
    pub debug: i32,
    pub announce_all_caps: i32,
}

/// Asks for a device with the given label and number.
pub fn loopback_config(label: &str, output_nr: i32) -> (r: V4l2LoopbackConfig)
    ensures
        r.output_nr == output_nr,
        r.unused == -1,
        r.card_label@ == kernel_label_field(label@),
        r.min_width == 0,
        r.max_width == 8192,
        r.min_height == 0,
        r.max_height == 8192,
        r.max_buffers == 0,
        r.max_openers == 0,
        r.debug == 0,
        r.announce_all_caps == 0,
{
    V4l2LoopbackConfig {
        output_nr,
        unused: -1,
        card_label: kernel_card_label_bytes(label),
        min_width: 0,
        max_width: 8192,
        min_height: 0,
        max_height: 8192,
        max_buffers: 0,
        max_openers: 0,
        debug: 0,
        announce_all_caps: 0,
    }
}

/// The number of a request that hands `size` bytes to a driver.
pub fn ioctl_iow(ty: u8, nr: u8, size: u32) -> (r: u64)
    ensures
        r == ((1u32 << 30) | ((ty as u32) << 8) | (nr as u32) | (size << 16)) as u64,
        size < 0x4000 ==> r == 0x4000_0000 + size * 0x1_0000 + ty * 0x100 + nr,
{
    let dir: u32 = 1u32 << 30u32;
    let kind: u32 = (ty as u32) << 8u32;
    let sz: u32 = size << 16u32;
    proof {
        let n: u32 = nr as u32;
        let t: u32 = ty as u32;
        assert(size < 0x4000 && t < 0x100 && n < 0x100 ==> ((1u32 << 30) | (t << 8) | n | (size
            << 16)) == 0x4000_0000 + size * 0x1_0000 + t * 0x100 + n) by (bit_vector);
    }
    (dir | kind | (nr as u32) | sz) as u64
}

/// The request that makes a loopback device. Its argument is 72 bytes long.
pub fn add_request() -> (r: u64)
    ensures
        r == 0x4048_7E01,
{
    ioctl_iow(126, 1, 72)
}

/// The request that removes a loopback device.
pub fn remove_request() -> (r: u64)
    ensures
        r == 0x4004_7E02,
{
    ioctl_iow(126, 2, 4)
}

/// The request is made once more.
pub open spec fn asks_again(result: i32, config: V4l2LoopbackConfig) -> bool {
    result < 0 && config.output_nr >= 0
}

/// What is asked for after a result.
pub open spec fn config_after(result: i32, config: V4l2LoopbackConfig) -> V4l2LoopbackConfig {
    if asks_again(result, config) {
        V4l2LoopbackConfig { output_nr: -1i32, ..config }
    } else {
        config
    }
}

/// A request that was refused is made once more, and only where it had asked for a number; the second
/// one is for the same device with a number of the kernel's choice, and there is no third.
pub proof fn lemma_refused_request_is_repeated_once(
    config: V4l2LoopbackConfig,
    first: i32,
    second: i32,
)
    ensures
        first >= 0 ==> !asks_again(first, config) && config_after(first, config) == config,
        first < 0 && config.output_nr >= 0 ==> asks_again(first, config) && config_after(
            first,
            config,
        ).output_nr == -1,
        config_after(first, config).card_label == config.card_label,
        asks_again(first, config) ==> !asks_again(second, config_after(first, config)),
{
}

/// Whether the request is made once more, after its result: where it asked for a number and was
/// refused, the kernel is left to pick one.
pub fn add_again(result: i32, config: &mut V4l2LoopbackConfig) -> (r: bool)
    ensures
        r == asks_again(result, *old(config)),
        *final(config) == config_after(result, *old(config)),
        r == (result < 0 && old(config).output_nr >= 0),
        r ==> *final(config) == (V4l2LoopbackConfig { output_nr: -1i32, ..*old(config) }),
        !r ==> *final(config) == *old(config),
{
    if result < 0 && config.output_nr >= 0 {
        config.output_nr = -1;
        true
    } else {
        false
    }
}

/// The number of the device that was made: the result of the request, or where that is zero the
/// number in the configuration.
pub open spec fn made_number(result: i32, config_nr: i32) -> i32 {
    if result > 0 {
        result
    } else {
        config_nr
    }
}

/// The number of the device that was made.
pub fn created_number(result: i32, config_nr: i32) -> (r: i32)
    ensures
        r == made_number(result, config_nr),
{
    if result > 0 {
        result
    } else {
        config_nr
    }
}

/// The device that was made has the number that the request returned, or the one that was asked for
/// where it returned zero.
pub proof fn lemma_made_number(result: i32, config_nr: i32)
    ensures
        result > 0 ==> made_number(result, config_nr) == result,
        result == 0 ==> made_number(result, config_nr) == config_nr,
{
}

/// The path of the video device with the given number.
pub open spec fn video_path(nr: nat) -> Seq<char> {
    "/dev/video"@ + decimal(nr)
}

/// The path of the video device with the given number.
pub fn video_device_path(nr: u32) -> (r: String)
    ensures
        r@ == video_path(nr as nat),
{
    concat2("/dev/video", &decimal_of(nr as u64))
}

/// What comes of a request, given the number of the device, whether the node of that number exists,
/// and the device that is found by its label.
pub open spec fn is_created_device(
    label: Seq<char>,
    output_nr: i32,
    node_exists: bool,
    found_by_label: Option<Seq<char>>,
    r: Result<LoopbackDevice, CamShimError>,
) -> bool {
    match r {
        Ok(device) => {
            &&& device.label@ == label
            &&& output_nr >= 0 ==> node_exists && device.path@ == video_path(output_nr as nat)
            &&& output_nr < 0 ==> found_by_label == Some(device.path@)
        },
        Err(_) => if output_nr >= 0 {
            !node_exists
        } else {
            found_by_label is None
        },
    }
}

/// A device whose number is known is the one at `/dev/video` with that number, and it is owed exactly
/// when its node is there. One whose number is not known is the one that has the label.
pub proof fn lemma_created_device(
    label: Seq<char>,
    nr: u32,
    node_exists: bool,
    found_by_label: Option<Seq<char>>,
    known: Result<LoopbackDevice, CamShimError>,
    unknown: Result<LoopbackDevice, CamShimError>,
)
    requires
        nr <= i32::MAX,
        is_created_device(label, nr as i32, node_exists, found_by_label, known),
        is_created_device(label, -1i32, node_exists, found_by_label, unknown),
    ensures
        known is Ok <==> node_exists,
        known matches Ok(device) ==> device.path@ == "/dev/video"@ + decimal(nr as nat)
            && device.label@ == label,
        unknown is Ok <==> found_by_label is Some,
        unknown matches Ok(device) ==> found_by_label == Some(device.path@) && device.label@
            == label,
{
}

/// The device that a request made, given the number of the device, whether the node of that number
/// exists, and the device that is found by its label.
pub fn created_device(
    label: &str,
    output_nr: i32,
    node_exists: bool,
    found_by_label: Option<String>,
) -> (r: Result<LoopbackDevice, CamShimError>)
    ensures
        is_created_device(label@, output_nr, node_exists, opt_text(found_by_label), r),
        match r {
            Ok(device) => {
                &&& device.label@ == label@
                &&& output_nr >= 0 ==> node_exists && device.path@ == video_path(output_nr as nat)
                &&& output_nr < 0 ==> opt_text(found_by_label) == Some(device.path@)
            },
            Err(err) => {
                &&& output_nr >= 0 ==> !node_exists && err.is_other(
                    "loopback reported "@ + video_path(output_nr as nat)
                        + " but the device node is missing"@,
                )
                &&& output_nr < 0 ==> found_by_label is None && err.is_other(
                    "loopback device was created but its /dev/video number could not be determined"@,
                )
            },
        },
{
    if output_nr < 0 {
        return match found_by_label {
            Some(path) => Ok(LoopbackDevice { path, label: label.to_string() }),
            None => Err(
                CamShimError::other(
                    "loopback device was created but its /dev/video number could not be determined".to_string(),
                ),
            ),
        };
    }
    let path = video_device_path(output_nr as u32);
    if !node_exists {
        return Err(
            CamShimError::other(
                concat3("loopback reported ", &path, " but the device node is missing"),
            ),
        );
    }
    Ok(LoopbackDevice { path, label: label.to_string() })
}

/// The ways to make a loopback device, in the order in which they are tried.
#[derive(Debug, Clone, Copy, PartialEq, Eq, Structural)]
pub enum CreateStage {
    /// Ask the control device, if it is there.
    Control,
    /// Run the control tool, if it can create devices.
    Tool,
    /// Take a device that has the label already.
    Existing,
    /// See whether the kernel module is loaded.
    Module,
    /// Load the kernel module with a device.
    Modprobe,
}

/// What came of a stage.
#[derive(Debug)]
pub enum CreateEvent {
    /// A device, by path.
    Made(String),
    /// No device: the way is not open, or nothing was found.
    Nothing,
    /// The way was tried and failed.
    Failed(CamShimError),
    /// The kernel module is loaded.
    ModuleLoaded,
    /// The kernel module is not loaded.
    ModuleMissing,
}

/// What follows.
#[derive(Debug)]
pub enum CreateStep {
    Try(CreateStage),
    Created(LoopbackDevice),
    GiveUp(CamShimError),
}

/// What is said where a loaded module made no device.
pub open spec fn no_device_text() -> Seq<char> {
    "could not create a loopback device via /dev/v4l2loopback. Your kernel module is v4l2loopback 0.15+, but apt's v4l2loopback-utils (0.12) cannot create devices — cam-shim uses the control device directly instead."@
}

/// What follows on a stage: a device that was made is the result; else the next way is tried. The
/// module is loaded with a device only where it is not loaded yet, and only what comes of that
/// fails the creation with its own error.
pub open spec fn create_follows(
    label: Seq<char>,
    stage: CreateStage,
    event: CreateEvent,
    step: CreateStep,
) -> bool {
    match (stage, event) {
        (CreateStage::Control, CreateEvent::Made(path))
        | (CreateStage::Tool, CreateEvent::Made(path))
        | (CreateStage::Existing, CreateEvent::Made(path))
        | (CreateStage::Modprobe, CreateEvent::Made(path)) => {
            step matches CreateStep::Created(device) && device.path@ == path@ && device.label@
                == label
        },
        (CreateStage::Control, _) => step == CreateStep::Try(CreateStage::Tool),
        (CreateStage::Tool, _) => step == CreateStep::Try(CreateStage::Existing),
        (CreateStage::Existing, _) => step == CreateStep::Try(CreateStage::Module),
        (CreateStage::Module, CreateEvent::ModuleMissing) => step == CreateStep::Try(
            CreateStage::Modprobe,
        ),
        (CreateStage::Module, _) => {
            step matches CreateStep::GiveUp(err) && err.is_other(no_device_text())
        },
        (CreateStage::Modprobe, CreateEvent::Failed(err)) => step == CreateStep::GiveUp(err),
        (CreateStage::Modprobe, _) => {
            step matches CreateStep::GiveUp(err) && err.is_other(
                "loopback module loaded but no virtual /dev/video node found"@,
            )
        },
    }
}

/// A device that a stage made is the result, under its path, and nothing else is. The ways are tried
/// one after the other; none of the first three ends the creation when it fails, and the kernel module
/// is loaded exactly when it is missing.
pub proof fn lemma_creation_goes_on(
    label: Seq<char>,
    stage: CreateStage,
    event: CreateEvent,
    step: CreateStep,
)
    requires
        create_follows(label, stage, event, step),
    ensures
        stage != CreateStage::Module ==> (event matches CreateEvent::Made(path) ==> (
        step matches CreateStep::Created(device) && device.path@ == path@ && device.label@
            == label)),
        step is Created ==> event is Made,
        step is GiveUp ==> stage == CreateStage::Module || stage == CreateStage::Modprobe,
        step == CreateStep::Try(CreateStage::Modprobe) <==> stage == CreateStage::Module
            && event is ModuleMissing,
        step == CreateStep::Try(CreateStage::Tool) <==> stage == CreateStage::Control
            && !(event is Made),
        step == CreateStep::Try(CreateStage::Existing) <==> stage == CreateStage::Tool
            && !(event is Made),
        step == CreateStep::Try(CreateStage::Module) <==> stage == CreateStage::Existing
            && !(event is Made),
        stage == CreateStage::Modprobe ==> (event matches CreateEvent::Failed(err) ==> step
            == CreateStep::GiveUp(err)),
{
}

/// Decides what follows on a stage of making a loopback device.
pub fn create_device(label: &str, stage: CreateStage, event: CreateEvent) -> (r: CreateStep)
    ensures
        create_follows(label@, stage, event, r),
{
    match stage {
        CreateStage::Module => match event {
            CreateEvent::ModuleMissing => CreateStep::Try(CreateStage::Modprobe),
            _ => CreateStep::GiveUp(
                CamShimError::other(
                    "could not create a loopback device via /dev/v4l2loopback. Your kernel module is v4l2loopback 0.15+, but apt's v4l2loopback-utils (0.12) cannot create devices — cam-shim uses the control device directly instead.".to_string(),
                ),
            ),
        },
        CreateStage::Modprobe => match event {
            CreateEvent::Made(path) => CreateStep::Created(
                LoopbackDevice { path, label: label.to_string() },
            ),
            CreateEvent::Failed(err) => CreateStep::GiveUp(err),
            _ => CreateStep::GiveUp(
                CamShimError::other(
                    "loopback module loaded but no virtual /dev/video node found".to_string(),
                ),
            ),
        },
        _ => match event {
            CreateEvent::Made(path) => CreateStep::Created(
                LoopbackDevice { path, label: label.to_string() },
            ),
            _ => match stage {
                CreateStage::Control => CreateStep::Try(CreateStage::Tool),
                CreateStage::Tool => CreateStep::Try(CreateStage::Existing),
                _ => CreateStep::Try(CreateStage::Module),
            },
        },
    }
}

/// The number that a text reads as, with a sign.
pub open spec fn parsed_signed(s: Seq<char>) -> Option<int> {
    match without_prefix(s, "-"@) {
        Some(rest) => if "+"@.is_prefix_of(rest) {
            None
        } else {
            match parsed_number(rest, 0x8000_0000) {
                Some(n) => Some(-(n as int)),
                None => None,
            }
        },
        None => match parsed_number(s, 0x7FFF_FFFF) {
            Some(n) => Some(n as int),
            None => None,
        },
    }
}

/// A number with its sign.
pub open spec fn signed_decimal(n: int) -> Seq<char> {
    if n < 0 {
        "-"@ + decimal((-n) as nat)
    } else {
        decimal(n as nat)
    }
}

/// Where the frame rate of a loopback device is set, by its path.
pub open spec fn format_file_of(device_path: Seq<char>) -> Option<Seq<char>> {
    match without_prefix(device_path, "/dev/video"@) {
        None => None,
        Some(index) => match parsed_signed(index) {
            None => None,
            Some(nr) => Some(
                "/sys/devices/virtual/video4linux/video"@ + signed_decimal(nr) + "/format"@,
            ),
        },
    }
}

/// Where the frame rate of a loopback device is set, by its path.
pub fn format_file(device_path: &str) -> (r: Option<String>)
    ensures
        opt_text(r) == format_file_of(device_path@),
{
    let index = match strip_prefix(device_path, "/dev/video") {
        Some(index) => index,
        None => {
            return None;
        },
    };
    let nr = match strip_prefix(&index, "-") {
        Some(rest) => {
            if starts_with(&rest, "+") {
                return None;
            }
            match parse_number(&rest, 0x8000_0000) {
                Some(0) => decimal_of(0),
                Some(n) => concat2("-", &decimal_of(n)),
                None => {
                    return None;
                },
            }
        },
        None => match parse_number(&index, 0x7FFF_FFFF) {
            Some(n) => decimal_of(n),
            None => {
                return None;
            },
        },
    };
    Some(concat3("/sys/devices/virtual/video4linux/video", &nr, "/format"))
}

/// The frame rate as the format file of a loopback device takes it.
pub fn format_rate(target_fps: u32) -> (r: String)
    ensures
        r@ == "@"@ + decimal(target_fps as nat),
{
    concat2("@", &decimal_of(target_fps as u64))
}

/// The number of a device is read back from its path and from the name of its node.
pub proof fn lemma_number_is_read_back(nr: nat)
    requires
        nr <= u32::MAX,
    ensures
        crate::session::loopback_number(video_path(nr)) == Some(nr),
        crate::loopback::node_number(node_name(nr)) == Some(nr),
        video_path(nr) == "/dev/"@ + node_name(nr),
{
    reveal_strlit("/dev/video");
    reveal_strlit("video");
    reveal_strlit("/dev/");
    let digits = decimal(nr);
    let path = video_path(nr);
    let name = node_name(nr);
    assert(path.subrange(0, 10) =~= "/dev/video"@);
    assert(path.subrange(10, path.len() as int) =~= digits);
    assert(name.subrange(0, 5) =~= "video"@);
    assert(name.subrange(5, name.len() as int) =~= digits);
    crate::text::lemma_number_roundtrip(nr, u32::MAX as nat);
    crate::text::lemma_number_roundtrip(nr, usize::MAX as nat);
    assert("/dev/video"@ =~= "/dev/"@ + "video"@);
    assert(path =~= "/dev/"@ + name);
}

/// The frame rate of the loopback device with a number is set in the format file of the video node
/// with that number; a path that is not one of a video device has no such file.
pub proof fn lemma_format_file(nr: nat, path: Seq<char>)
    requires
        nr <= i32::MAX,
    ensures
        format_file_of("/dev/video"@ + decimal(nr)) == Some(
            "/sys/devices/virtual/video4linux/video"@ + decimal(nr) + "/format"@,
        ),
        !"/dev/video"@.is_prefix_of(path) ==> format_file_of(path) is None,
{
    let device = "/dev/video"@ + decimal(nr);
    assert(device.subrange("/dev/video"@.len() as int, device.len() as int) =~= decimal(nr));
    assert("/dev/video"@.is_prefix_of(device));
    crate::text::lemma_decimal_parses(nr);
    crate::text::lemma_number_roundtrip(nr, 0x7FFF_FFFF);
    reveal_strlit("-");
    assert(!"-"@.is_prefix_of(decimal(nr))) by {
        assert(crate::text::is_digit(decimal(nr)[0]));
        assert("-"@[0] == '-');
    }
}

} // verus!
