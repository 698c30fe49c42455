//! Physical cameras and their device nodes.
use vstd::prelude::*;

use crate::error::CamShimError;
use crate::loopback::{node_number, video_number};
use crate::order::{
    lemma_text_before_total, lemma_text_before_transitive, sort_texts, sorted_by, text_before,
    text_is_before, text_order,
};
use crate::split::{after_last, lemma_filter_nothing, lemma_filter_step, lemma_map_push, split_on};
use crate::text::{
    all_digits, chars_of, concat2, concat6, contains, digits_from, has_text, is_empty, occurs, opt_text, starts_with,
    str_eq, strip_prefix, texts, trim, trimmed, without_prefix,
};

verus! {

broadcast use crate::text::group_texts;

/// A physical camera: its key and its capture nodes.
#[derive(Debug)]
pub struct CameraIdentity {
    pub id_serial: String,
    pub nodes: Vec<String>,
}

/// One directory on the way from a video node up the device tree.
#[derive(Debug)]
pub struct DeviceLevel {
    /// The directory has a vendor file, as that of a USB device has.
    pub has_vendor: bool,
    pub vendor: Option<String>,
    pub product: Option<String>,
    pub serial: Option<String>,
}

/// Levels of USB devices, as a predicate.
pub open spec fn is_usb_level() -> spec_fn(DeviceLevel) -> bool {
    |level: DeviceLevel| level.has_vendor
}

/// The key of the USB device whose directory this is.
pub open spec fn level_key(level: DeviceLevel) -> Option<Seq<char>> {
    match (level.vendor, level.product) {
        (Some(vendor), Some(product)) => {
            let serial = match level.serial {
                Some(serial) => if trimmed(serial@).len() == 0 {
                    "no-serial"@
                } else {
                    trimmed(serial@)
                },
                None => "no-serial"@,
            };
            Some("usb:"@ + trimmed(vendor@) + ":"@ + trimmed(product@) + ":"@ + serial)
        },
        _ => None,
    }
}

/// The key of the USB device that a video node belongs to, from the directories above the node.
pub open spec fn usb_key(levels: Seq<DeviceLevel>) -> Option<Seq<char>> {
    let at = crate::split::first_where(levels, is_usb_level());
    if at < levels.len() {
        level_key(levels[at])
    } else {
        None
    }
}

/// The key of the USB device that a video node belongs to: vendor, product and serial number.
pub fn usb_device_sysfs_key(levels: &Vec<DeviceLevel>) -> (r: Option<String>)
    ensures
        opt_text(r) == usb_key(levels@),
{
    let mut i: usize = 0;
    while i < levels.len()
        invariant
            i <= levels@.len(),
            forall|j: int| 0 <= j < i ==> !is_usb_level()(#[trigger] levels@[j]),
        decreases levels@.len() - i,
    {
        if levels[i].has_vendor {
            proof {
                crate::split::lemma_first_where(levels@, is_usb_level(), i as int);
            }
            return match (&levels[i].vendor, &levels[i].product) {
                (Some(vendor), Some(product)) => {
                    let serial = match &levels[i].serial {
                        Some(serial) => {
                            let serial = trim(serial);
                            if is_empty(&serial) {
                                "no-serial".to_string()
                            } else {
                                serial
                            }
                        },
                        None => "no-serial".to_string(),
                    };
                    Some(concat6("usb:", &trim(vendor), ":", &trim(product), ":", &serial))
                },
                _ => None,
            };
        }
        i += 1;
    }
    proof {
        crate::split::lemma_first_where(levels@, is_usb_level(), i as int);
    }
    None
}

/// The serial number in the key of a USB device.
pub open spec fn key_serial(key: Seq<char>) -> Option<Seq<char>> {
    match without_prefix(key, "usb:"@) {
        None => None,
        Some(rest) => {
            let serial = split_on(rest, ':').last();
            if serial == "no-serial"@ {
                None
            } else {
                Some(serial)
            }
        },
    }
}

/// The serial number of the camera that a video node belongs to.
pub open spec fn camera_serial(levels: Seq<DeviceLevel>) -> Option<Seq<char>> {
    match usb_key(levels) {
        Some(key) => key_serial(key),
        None => None,
    }
}

/// The serial number of a camera is read back from its key, unless it has none.
pub proof fn lemma_key_gives_serial(vendor: Seq<char>, serial: Seq<char>)
    requires
        !serial.contains(':'),
    ensures
        serial != "no-serial"@ ==> key_serial("usb:"@ + vendor + seq![':'] + serial) == Some(serial),
        serial == "no-serial"@ ==> key_serial("usb:"@ + vendor + seq![':'] + serial) is None,
        !"usb:"@.is_prefix_of(vendor) ==> key_serial(vendor) is None,
{
    let key = "usb:"@ + vendor + seq![':'] + serial;
    let rest = vendor + seq![':'] + serial;
    assert(key =~= "usb:"@ + rest);
    assert("usb:"@.is_prefix_of(key));
    assert(key.subrange("usb:"@.len() as int, key.len() as int) =~= rest);
    crate::split::lemma_split_tail(vendor, ':', serial);
}

/// The serial number of the camera that a video node belongs to.
pub fn device_id_serial(levels: &Vec<DeviceLevel>) -> (r: Option<String>)
    ensures
        opt_text(r) == camera_serial(levels@),
{
    let key = match usb_device_sysfs_key(levels) {
        Some(key) => key,
        None => {
            return None;
        },
    };
    match strip_prefix(&key, "usb:") {
        None => None,
        Some(rest) => {
            let serial = after_last(&rest, ':');
            if str_eq(&serial, "no-serial") {
                None
            } else {
                Some(serial)
            }
        },
    }
}

/// The key of the camera that a video node belongs to: that of its USB device, or else its name, or
/// else the path of the node.
pub open spec fn camera_key(
    levels: Seq<DeviceLevel>,
    device_path: Seq<char>,
    card_name: Seq<char>,
) -> Seq<char> {
    match usb_key(levels) {
        Some(key) => key,
        None => if card_name.len() > 0 {
            "name:"@ + card_name
        } else {
            device_path
        },
    }
}

/// The key of the camera that a video node belongs to.
pub fn physical_camera_key_with_name(
    levels: &Vec<DeviceLevel>,
    device_path: &str,
    card_name: &str,
) -> (r: String)
    ensures
        r@ == camera_key(levels@, device_path@, card_name@),
{
    if let Some(key) = usb_device_sysfs_key(levels) {
        return key;
    }
    if !is_empty(card_name) {
        return concat2("name:", card_name);
    }
    device_path.to_string()
}

/// The key of the camera that a video node belongs to, where its name is not known.
pub fn physical_camera_key(levels: &Vec<DeviceLevel>, device_path: &str) -> (r: String)
    ensures
        r@ == camera_key(levels@, device_path@, Seq::empty()),
{
    let r = physical_camera_key_with_name(levels, device_path, "");
    assert(""@ =~= Seq::<char>::empty()) by {
        reveal_strlit("");
    }
    r
}

/// A character in lower case, where it is an ASCII letter.
pub open spec fn lower_char(c: char) -> char {
    if 'A' <= c <= 'Z' {
        ((c as u32 + 32) as u32) as char
    } else {
        c
    }
}

/// A text with its ASCII letters in lower case.
pub open spec fn lower_text(s: Seq<char>) -> Seq<char> {
    s.map_values(|c: char| lower_char(c))
}

fn lower(c: char) -> (r: char)
    ensures
        r == lower_char(c),
{
    if 'A' <= c && c <= 'Z' {
        let n: u8 = c as u8 + 32u8;
        n as char
    } else {
        c
    }
}

/// A text with its ASCII letters in lower case.
pub fn to_lower(s: &str) -> (r: String)
    ensures
        r@ == lower_text(s@),
{
    let chars = chars_of(s);
    let mut out = String::new();
    let mut i: usize = 0;
    while i < chars.len()
        invariant
            i <= chars@.len(),
            out@ == lower_text(chars@).take(i as int),
        decreases chars@.len() - i,
    {
        out.push(lower(chars[i]));
        assert(out@ =~= lower_text(chars@).take(i + 1));
        i += 1;
    }
    assert(lower_text(chars@).take(i as int) =~= lower_text(chars@));
    out
}

/// The name of a node is that of a metadata node.
pub open spec fn names_metadata(name: Seq<char>) -> bool {
    occurs(lower_text(name), "metadata"@)
}

/// Whether the name of a node is that of a metadata node.
pub fn is_metadata_name(name: &str) -> (r: bool)
    ensures
        r == names_metadata(name@),
{
    contains(&to_lower(name), "metadata")
}

/// Whether a node captures video, given its name and what opening it showed, where those can be had.
pub fn is_capture_device(card: &Option<String>, captures: Option<bool>) -> (r: bool)
    ensures
        r == (!(card matches Some(name) && names_metadata(name@)) && captures == Some(true)),
{
    if let Some(name) = card {
        if is_metadata_name(name) {
            return false;
        }
    }
    match captures {
        Some(captures) => captures,
        None => false,
    }
}

/// A video node of the system.
#[derive(Debug)]
pub struct CameraNode {
    /// The name of the node, such as `video0`.
    pub name: String,
    /// Whether the node belongs to a virtual device.
    pub loopback: bool,
    /// Whether the device file is there.
    pub present: bool,
    /// The key of the camera that the node belongs to.
    pub key: String,
    /// Whether the node captures video.
    pub capture: bool,
}

/// Capture nodes of the camera with the given key.
pub open spec fn is_node_of(id_serial: Seq<char>) -> spec_fn(CameraNode) -> bool {
    |node: CameraNode|
        !node.loopback && "video"@.is_prefix_of(node.name@) && node.present && node.key@ == id_serial
            && node.capture
}

/// The path of a device file.
pub open spec fn device_file(name: Seq<char>) -> Seq<char> {
    "/dev/"@ + name
}

/// The paths of nodes.
pub open spec fn node_paths(nodes: Seq<CameraNode>) -> Seq<Seq<char>> {
    nodes.map_values(|node: CameraNode| device_file(node.name@))
}

/// `paths` are the capture nodes of a camera, in text order.
pub open spec fn are_capture_nodes(
    nodes: Seq<CameraNode>,
    id_serial: Seq<char>,
    paths: Seq<Seq<char>>,
) -> bool {
    sorted_by(node_paths(nodes.filter(is_node_of(id_serial))), paths, text_order())
}

/// The capture nodes of a camera are its physical nodes that are there and capture video, each by its
/// path, and no other node is among them.
pub proof fn lemma_capture_nodes(
    nodes: Seq<CameraNode>,
    id_serial: Seq<char>,
    paths: Seq<Seq<char>>,
    path: Seq<char>,
)
    requires
        are_capture_nodes(nodes, id_serial, paths),
    ensures
        paths.contains(path) <==> exists|i: int|
            {
                &&& 0 <= i < nodes.len()
                &&& path == "/dev/"@ + (#[trigger] nodes[i]).name@
                &&& !nodes[i].loopback
                &&& nodes[i].present
                &&& nodes[i].capture
                &&& nodes[i].key@ == id_serial
                &&& "video"@.is_prefix_of(nodes[i].name@)
            },
{
    let p = is_node_of(id_serial);
    let kept = nodes.filter(p);
    let listed = node_paths(kept);
    assert forall|a: Seq<char>| !#[trigger] text_order()(a, a) by {
        crate::order::lemma_text_before_total(a, a);
    }
    crate::order::lemma_sorted_members(listed, paths, text_order(), path);
    if listed.contains(path) {
        let k = choose|k: int| 0 <= k < listed.len() && listed[k] == path;
        assert(kept.contains(kept[k]));
        crate::split::lemma_filter_members(nodes, p, kept[k]);
        let i = choose|i: int| 0 <= i < nodes.len() && nodes[i] == kept[k];
        assert(path == "/dev/"@ + nodes[i].name@);
    }
    if exists|i: int|
        {
            &&& 0 <= i < nodes.len()
            &&& path == "/dev/"@ + (#[trigger] nodes[i]).name@
            &&& p(nodes[i])
        } {
        let i = choose|i: int|
            {
                &&& 0 <= i < nodes.len()
                &&& path == "/dev/"@ + (#[trigger] nodes[i]).name@
                &&& p(nodes[i])
            };
        assert(nodes.contains(nodes[i]));
        crate::split::lemma_filter_members(nodes, p, nodes[i]);
        let k = choose|k: int| 0 <= k < kept.len() && kept[k] == nodes[i];
        assert(listed[k] == path);
    }
}

/// The capture nodes of a camera, in text order.
pub fn related_video_nodes(nodes: &Vec<CameraNode>, id_serial: &str) -> (r: Vec<String>)
    ensures
        are_capture_nodes(nodes@, id_serial@, texts(r@)),
{
    let ghost p = is_node_of(id_serial@);
    let ghost f = |node: CameraNode| device_file(node.name@);
    let mut out: Vec<String> = Vec::new();
    let mut i: usize = 0;
    proof {
        lemma_filter_nothing(nodes@, p);
        assert(texts(out@) =~= node_paths(nodes@.take(0).filter(p)));
    }
    while i < nodes.len()
        invariant
            i <= nodes@.len(),
            p == is_node_of(id_serial@),
            f == (|node: CameraNode| device_file(node.name@)),
            texts(out@) == node_paths(nodes@.take(i as int).filter(p)),
        decreases nodes@.len() - i,
    {
        proof {
            lemma_filter_step(nodes@, p, i as int);
            lemma_map_push(nodes@.take(i as int).filter(p), f, nodes@[i as int]);
        }
        let node = &nodes[i];
        if !node.loopback && starts_with(&node.name, "video") && node.present && str_eq(
            &node.key,
            id_serial,
        ) && node.capture {
            out.push(concat2("/dev/", &node.name));
        }
        i += 1;
    }
    proof {
        lemma_filter_nothing(nodes@, p);
    }
    sort_texts(&out)
}

/// The camera that a video node belongs to.
pub fn camera_identity(nodes: &Vec<CameraNode>, source_key: &str) -> (r: CameraIdentity)
    ensures
        r.id_serial@ == source_key@,
        are_capture_nodes(nodes@, source_key@, texts(r.nodes@)),
{
    CameraIdentity {
        id_serial: source_key.to_string(),
        nodes: related_video_nodes(nodes, source_key),
    }
}

/// A video node has a lower number than another. A node without a number comes after those that
/// have one.
pub open spec fn has_lower_number(a: Seq<char>, b: Seq<char>) -> bool {
    match (node_number(a), node_number(b)) {
        (Some(x), Some(y)) => x < y,
        (Some(_), None) => true,
        _ => false,
    }
}

/// A video node is preferred to another: it has the lower number or, where neither has, it comes
/// first in text order.
pub open spec fn is_preferred(a: Seq<char>, b: Seq<char>) -> bool {
    has_lower_number(a, b) || (!has_lower_number(b, a) && text_before(a, b))
}

fn prefers(a: &str, b: &str) -> (r: bool)
    ensures
        r == is_preferred(a@, b@),
{
    match (video_number(a), video_number(b)) {
        (Some(x), Some(y)) => x < y || (x == y && text_is_before(a, b)),
        (Some(_), None) => true,
        (None, Some(_)) => false,
        (None, None) => text_is_before(a, b),
    }
}

/// The lowest-numbered capture node of the camera that a video node belongs to.
pub fn best_capture_path(nodes: &Vec<CameraNode>, source_key: &str, source_device: &str) -> (r:
    Result<String, CamShimError>)
    ensures
        r matches Ok(path) ==> is_best_capture(nodes@, source_key@, path@),
        match r {
            Ok(path) => exists|i: int|
                {
                    &&& 0 <= i < nodes@.len()
                    &&& is_node_of(source_key@)(#[trigger] nodes@[i])
                    &&& path@ == device_file(nodes@[i].name@)
                    &&& forall|j: int|
                        0 <= j < nodes@.len() && is_node_of(source_key@)(#[trigger] nodes@[j])
                            ==> !has_lower_number(nodes@[j].name@, nodes@[i].name@)
                            && !is_preferred(nodes@[j].name@, nodes@[i].name@)
                },
            Err(err) => {
                &&& forall|i: int|
                    0 <= i < nodes@.len() ==> !is_node_of(source_key@)(#[trigger] nodes@[i])
                &&& forall|i: int|
                    0 <= i < nodes@.len() ==> (#[trigger] nodes@[i]).loopback || !nodes@[i].present
                        || !nodes@[i].capture || nodes@[i].key@ != source_key@
                        || !"video"@.is_prefix_of(nodes@[i].name@)
                &&& err matches CamShimError::DeviceNotFound(what)
                &&& what@ == "no capture node found for "@ + source_device@
            },
        },
{
    let mut best: Option<usize> = None;
    let mut i: usize = 0;
    while i < nodes.len()
        invariant
            i <= nodes@.len(),
            match best {
                Some(k) => k < i && is_node_of(source_key@)(nodes@[k as int]) && forall|j: int|
                    0 <= j < i && is_node_of(source_key@)(#[trigger] nodes@[j]) ==> !is_preferred(
                        nodes@[j].name@,
                        nodes@[k as int].name@,
                    ),
                None => forall|j: int|
                    0 <= j < i ==> !is_node_of(source_key@)(#[trigger] nodes@[j]),
            },
        decreases nodes@.len() - i,
    {
        let node = &nodes[i];
        if !node.loopback && starts_with(&node.name, "video") && node.present && str_eq(
            &node.key,
            source_key,
        ) && node.capture {
            let better = match best {
                Some(k) => prefers(&node.name, &nodes[k].name),
                None => true,
            };
            proof {
                lemma_text_before_total(node.name@, node.name@);
                if let Some(k) = best {
                    assert forall|j: int|
                        better && 0 <= j < i && is_node_of(source_key@)(
                            #[trigger] nodes@[j],
                        ) implies !is_preferred(nodes@[j].name@, node.name@) by {
                        lemma_preferred_transitive(
                            nodes@[j].name@,
                            node.name@,
                            nodes@[k as int].name@,
                        );
                    }
                }
            }
            if better {
                best = Some(i);
            }
        }
        i += 1;
    }
    match best {
        Some(k) => Ok(concat2("/dev/", &nodes[k].name)),
        None => Err(
            CamShimError::DeviceNotFound(concat2("no capture node found for ", source_device)),
        ),
    }
}

proof fn lemma_preferred_transitive(a: Seq<char>, b: Seq<char>, c: Seq<char>)
    ensures
        is_preferred(a, b) && is_preferred(b, c) ==> is_preferred(a, c),
{
    lemma_text_before_transitive(a, b, c);
}

/// Whether a camera is there: whether it has a capture node.
pub fn camera_serial_present(nodes: &Vec<CameraNode>, id_serial: &str) -> (r: bool)
    ensures
        r <==> exists|i: int| 0 <= i < nodes@.len() && is_node_of(id_serial@)(#[trigger] nodes@[i]),
{
    let mut i: usize = 0;
    while i < nodes.len()
        invariant
            i <= nodes@.len(),
            forall|j: int| 0 <= j < i ==> !is_node_of(id_serial@)(#[trigger] nodes@[j]),
        decreases nodes@.len() - i,
    {
        let node = &nodes[i];
        if !node.loopback && starts_with(&node.name, "video") && node.present && str_eq(
            &node.key,
            id_serial,
        ) && node.capture {
            assert(is_node_of(id_serial@)(nodes@[i as int]));
            return true;
        }
        i += 1;
    }
    false
}

/// A name is `video`, followed by digits.
pub open spec fn names_video_node(name: Seq<char>) -> bool {
    match without_prefix(name, "video"@) {
        Some(rest) => all_digits(rest),
        None => false,
    }
}

/// Whether a name is `video`, followed by digits.
pub fn is_video_node_name(name: &str) -> (r: bool)
    ensures
        r == names_video_node(name@),
{
    match strip_prefix(name, "video") {
        Some(rest) => {
            let chars = chars_of(&rest);
            assert(chars@.subrange(0, chars@.len() as int) =~= chars@);
            digits_from(&chars, 0)
        },
        None => false,
    }
}

/// The device file is left over: it has the name of a video node that the system does not know.
pub open spec fn is_ghost(known: Seq<Seq<char>>) -> spec_fn(Seq<char>) -> bool {
    |name: Seq<char>| names_video_node(name) && !known.contains(name)
}

/// The paths of device files.
pub open spec fn device_files(names: Seq<Seq<char>>) -> Seq<Seq<char>> {
    names.map_values(|name: Seq<char>| device_file(name))
}

/// The left-over video device files, in text order, given the names of all device files and those
/// of the video nodes that the system knows.
pub fn ghost_device_nodes(names: &Vec<String>, known: &Vec<String>) -> (r: Vec<String>)
    ensures
        sorted_by(
            device_files(texts(names@).filter(is_ghost(texts(known@)))),
            texts(r@),
            text_order(),
        ),
{
    let ghost p = is_ghost(texts(known@));
    let ghost f = |name: Seq<char>| device_file(name);
    let ghost all = texts(names@);
    let mut out: Vec<String> = Vec::new();
    let mut i: usize = 0;
    proof {
        lemma_filter_nothing(all, p);
        assert(texts(out@) =~= device_files(all.take(0).filter(p)));
    }
    assert(all.len() == names@.len());
    while i < names.len()
        invariant
            i <= names@.len(),
            all == texts(names@),
            all.len() == names@.len(),
            p == is_ghost(texts(known@)),
            f == (|name: Seq<char>| device_file(name)),
            texts(out@) == device_files(all.take(i as int).filter(p)),
        decreases names@.len() - i,
    {
        proof {
            assert(all[i as int] == names@[i as int]@);
            lemma_filter_step(all, p, i as int);
            lemma_map_push(all.take(i as int).filter(p), f, all[i as int]);
        }
        if is_video_node_name(&names[i]) && !has_text(known, &names[i]) {
            out.push(concat2("/dev/", &names[i]));
        }
        i += 1;
    }
    proof {
        lemma_filter_nothing(all, p);
    }
    sort_texts(&out)
}

/// The number of left-over video device files.
pub fn ghost_device_count(names: &Vec<String>, known: &Vec<String>) -> (r: usize)
    ensures
        r == texts(names@).filter(is_ghost(texts(known@))).len(),
{
    let ghosts = ghost_device_nodes(names, known);
    assert(texts(ghosts@).len() == ghosts@.len());
    ghosts.len()
}

/// What a repair did.
#[derive(Debug)]
pub struct RepairReport {
    pub ghosts_removed: Vec<String>,
}

impl Default for RepairReport {
    fn default() -> (r: Self)
        ensures
            r.ghosts_removed@.len() == 0,
    {
        RepairReport { ghosts_removed: Vec::new() }
    }
}

/// Failed removals, as a predicate.
pub open spec fn is_failure() -> spec_fn(Result<(), CamShimError>) -> bool {
    |outcome: Result<(), CamShimError>| outcome is Err
}

/// What a repair comes to, from what came of removing the left-over files one by one, up to the
/// first that could not be removed: that one's error, or the files that were removed.
pub fn repair_video_devices(ghosts: &Vec<String>, outcomes: Vec<Result<(), CamShimError>>) -> (r:
    Result<RepairReport, CamShimError>)
    requires
        outcomes@.len() <= ghosts@.len(),
    ensures
        is_repair(ghosts@, outcomes@, r),
        ({
            let at = crate::split::first_where(outcomes@, is_failure());
            match r {
                Err(err) => at < outcomes@.len() && outcomes@[at] == Err::<(), CamShimError>(err),
                Ok(report) => at == outcomes@.len() && texts(report.ghosts_removed@) == texts(
                    ghosts@,
                ).take(outcomes@.len() as int),
            }
        }),
{
    let mut removed: Vec<String> = Vec::new();
    let mut i: usize = 0;
    assert(texts(removed@) =~= texts(ghosts@).take(0));
    while i < outcomes.len()
        invariant
            i <= outcomes@.len() <= ghosts@.len(),
            forall|j: int| 0 <= j < i ==> !is_failure()(#[trigger] outcomes@[j]),
            texts(removed@) == texts(ghosts@).take(i as int),
        decreases outcomes@.len() - i,
    {
        if let Err(err) = &outcomes[i] {
            proof {
                crate::split::lemma_first_where(outcomes@, is_failure(), i as int);
            }
            return Err(err.clone());
        }
        removed.push(ghosts[i].clone());
        assert(texts(ghosts@).take(i + 1) =~= texts(ghosts@).take(i as int).push(
            ghosts@[i as int]@,
        ));
        i += 1;
    }
    proof {
        crate::split::lemma_first_where(outcomes@, is_failure(), i as int);
    }
    Ok(RepairReport { ghosts_removed: removed })
}

/// A repair never removes the file of a video node that the system knows, nor one that is not named
/// like a video node.
pub proof fn lemma_repair_spares_known_nodes(
    names: Seq<Seq<char>>,
    known: Seq<Seq<char>>,
    removed: Seq<Seq<char>>,
    path: Seq<char>,
)
    requires
        sorted_by(device_files(names.filter(is_ghost(known))), removed, text_order()),
        removed.contains(path),
    ensures
        exists|name: Seq<char>| #[trigger]
            names_video_node(name) && path == device_file(name) && names.contains(name)
                && !known.contains(name),
{
    broadcast use vstd::seq_lib::group_filter_ensures;

    let ghosts = names.filter(is_ghost(known));
    let order = choose|order: Seq<int>| #[trigger]
        crate::order::is_stable_order(device_files(ghosts), text_order(), order) && removed
            == crate::order::picked(device_files(ghosts), order);
    let k = choose|k: int| 0 <= k < removed.len() && removed[k] == path;
    let name = ghosts[order[k]];
    assert(removed[k] == device_files(ghosts)[order[k]]);
    assert(ghosts.contains(name));
    assert(is_ghost(known)(name));
    names.lemma_filter_contains_rev(is_ghost(known), name);
    assert(names_video_node(name));
}

/// The key of a camera on USB is made of the vendor, product and serial number of the first USB device
/// above its node, and of nothing else; another camera has its name for a key, or where that is not
/// known the path of its node.
pub proof fn lemma_camera_key(
    levels: Seq<DeviceLevel>,
    at: int,
    device_path: Seq<char>,
    card_name: Seq<char>,
)
    requires
        0 <= at <= levels.len(),
        forall|i: int| 0 <= i < at ==> !(#[trigger] levels[i]).has_vendor,
        at < levels.len() ==> levels[at].has_vendor,
    ensures
        at < levels.len() ==> {
            let level = levels[at];
            (level.vendor matches Some(vendor) && level.product matches Some(product)) ==> {
                let serial = match level.serial {
                    Some(serial) => if trimmed(serial@).len() > 0 {
                        trimmed(serial@)
                    } else {
                        "no-serial"@
                    },
                    None => "no-serial"@,
                };
                camera_key(levels, device_path, card_name) == "usb:"@ + trimmed(level.vendor->0@)
                    + ":"@ + trimmed(level.product->0@) + ":"@ + serial
            }
        },
        at == levels.len() || levels[at].vendor is None || levels[at].product is None
            ==> camera_key(levels, device_path, card_name) == if card_name.len() > 0 {
            "name:"@ + card_name
        } else {
            device_path
        },
{
    crate::split::lemma_first_where(levels, is_usb_level(), at);
}

/// Two cameras of one make that have different serial numbers have different keys, and the nodes of
/// one camera have the same key, whatever their paths and names.
pub proof fn lemma_serials_tell_cameras_apart(
    a: DeviceLevel,
    b: DeviceLevel,
    path: Seq<char>,
    other_path: Seq<char>,
    name: Seq<char>,
    other_name: Seq<char>,
)
    requires
        a.has_vendor && b.has_vendor,
        a.vendor is Some && a.product is Some,
        b.vendor == a.vendor && b.product == a.product,
        a.serial is Some && b.serial is Some,
        trimmed(a.serial->0@).len() > 0 && trimmed(b.serial->0@).len() > 0,
    ensures
        trimmed(a.serial->0@) != trimmed(b.serial->0@) ==> camera_key(seq![a], path, name)
            != camera_key(seq![b], other_path, other_name),
        camera_key(seq![a], path, name) == camera_key(seq![a], other_path, other_name),
{
    lemma_camera_key(seq![a], 0, path, name);
    lemma_camera_key(seq![a], 0, other_path, other_name);
    lemma_camera_key(seq![b], 0, other_path, other_name);
    let head = "usb:"@ + trimmed(a.vendor->0@) + ":"@ + trimmed(a.product->0@) + ":"@;
    let x = trimmed(a.serial->0@);
    let y = trimmed(b.serial->0@);
    if head + x == head + y {
        assert((head + x).skip(head.len() as int) =~= x);
        assert((head + y).skip(head.len() as int) =~= y);
    }
}

/// A file is found to be left over exactly when it is named like a video node and the system knows no
/// node of that name.
pub proof fn lemma_left_over_files_are_found(
    names: Seq<Seq<char>>,
    known: Seq<Seq<char>>,
    found: Seq<Seq<char>>,
    name: Seq<char>,
)
    requires
        sorted_by(device_files(names.filter(is_ghost(known))), found, text_order()),
    ensures
        found.contains("/dev/"@ + name) <==> {
            &&& names.contains(name)
            &&& !known.contains(name)
            &&& "video"@.is_prefix_of(name)
            &&& forall|i: int| 5 <= i < name.len() ==> '0' <= #[trigger] name[i] <= '9'
        },
        found.len() == names.filter(is_ghost(known)).len(),
{
    let ghosts = names.filter(is_ghost(known));
    let paths = device_files(ghosts);
    assert forall|a: Seq<char>| !#[trigger] text_order()(a, a) by {
        lemma_text_before_total(a, a);
    }
    crate::order::lemma_sorted_members(paths, found, text_order(), "/dev/"@ + name);
    crate::split::lemma_filter_members(names, is_ghost(known), name);
    reveal_strlit("video");
    let digits = name.subrange(5, name.len() as int);
    if names_video_node(name) {
        assert forall|i: int| 5 <= i < name.len() implies '0' <= #[trigger] name[i] <= '9' by {
            assert(crate::text::is_digit(digits[i - 5]));
        }
    }
    if paths.contains("/dev/"@ + name) {
        let k = choose|k: int| 0 <= k < paths.len() && paths[k] == "/dev/"@ + name;
        assert(("/dev/"@ + ghosts[k]).skip("/dev/"@.len() as int) =~= ghosts[k]);
        assert(("/dev/"@ + name).skip("/dev/"@.len() as int) =~= name);
        assert(ghosts.contains(name));
    }
    if ghosts.contains(name) {
        let k = choose|k: int| 0 <= k < ghosts.len() && ghosts[k] == name;
        assert(paths[k] == "/dev/"@ + name);
    }
}

/// A repair is reported as a success exactly when every removal succeeded, with the files that were
/// removed; else with the error of the first removal that failed.
pub open spec fn is_repair(
    ghosts: Seq<String>,
    outcomes: Seq<Result<(), CamShimError>>,
    r: Result<RepairReport, CamShimError>,
) -> bool {
    let at = crate::split::first_where(outcomes, is_failure());
    match r {
        Err(err) => at < outcomes.len() && outcomes[at] == Err::<(), CamShimError>(err),
        Ok(report) => at == outcomes.len() && texts(report.ghosts_removed@) == texts(ghosts).take(
            outcomes.len() as int,
        ),
    }
}

/// A repair succeeds exactly when every removal did, and then reports each file that was removed; else
/// it fails as the first removal did that failed.
pub proof fn lemma_repair_reports_all(
    ghosts: Seq<String>,
    outcomes: Seq<Result<(), CamShimError>>,
    r: Result<RepairReport, CamShimError>,
)
    requires
        outcomes.len() <= ghosts.len(),
        is_repair(ghosts, outcomes, r),
    ensures
        r is Ok <==> forall|i: int| 0 <= i < outcomes.len() ==> (#[trigger] outcomes[i]) is Ok,
        r matches Ok(report) ==> report.ghosts_removed@.len() == outcomes.len() && forall|i: int|
            0 <= i < outcomes.len() ==> (#[trigger] report.ghosts_removed@[i])@ == ghosts[i]@,
        r matches Err(err) ==> exists|i: int|
            {
                &&& 0 <= i < outcomes.len()
                &&& #[trigger] outcomes[i] == Err::<(), CamShimError>(err)
                &&& forall|j: int| 0 <= j < i ==> (#[trigger] outcomes[j]) is Ok
            },
{
    let p = is_failure();
    crate::split::lemma_first_found(outcomes, p);
    let at = crate::split::first_where(outcomes, p);
    assert forall|j: int| 0 <= j < at implies (#[trigger] outcomes[j]) is Ok by {
        assert(!p(outcomes[j]));
    }
    if let Ok(report) = r {
        let removed = texts(report.ghosts_removed@);
        assert(removed.len() == report.ghosts_removed@.len());
        assert forall|i: int| 0 <= i < outcomes.len() implies (
        #[trigger] report.ghosts_removed@[i])@ == ghosts[i]@ by {
            assert(removed[i] == report.ghosts_removed@[i]@);
            assert(texts(ghosts)[i] == ghosts[i]@);
        }
    } else {
        assert(p(outcomes[at]));
    }
}

/// The path of a capture node of the camera that goes before its other capture nodes.
pub open spec fn is_best_capture(
    nodes: Seq<CameraNode>,
    source_key: Seq<char>,
    path: Seq<char>,
) -> bool {
    exists|i: int|
        {
            &&& 0 <= i < nodes.len()
            &&& is_node_of(source_key)(#[trigger] nodes[i])
            &&& path == device_file(nodes[i].name@)
            &&& forall|j: int|
                0 <= j < nodes.len() && is_node_of(source_key)(#[trigger] nodes[j])
                    ==> !is_preferred(nodes[j].name@, nodes[i].name@)
        }
}

/// The best path is that of a present capture node of the camera that is no virtual one, and of all
/// such nodes that are numbered none has a lower number: where one is `video` and a number, the best
/// one is numbered at most as high.
pub proof fn lemma_lowest_number_is_best(
    nodes: Seq<CameraNode>,
    source_key: Seq<char>,
    path: Seq<char>,
    j: int,
    number: nat,
)
    requires
        is_best_capture(nodes, source_key, path),
        0 <= j < nodes.len(),
        !nodes[j].loopback && nodes[j].present && nodes[j].capture && nodes[j].key@ == source_key,
        nodes[j].name@ == "video"@ + crate::text::decimal(number),
        number <= u32::MAX,
    ensures
        exists|i: int|
            {
                &&& 0 <= i < nodes.len()
                &&& path == "/dev/"@ + (#[trigger] nodes[i]).name@
                &&& !nodes[i].loopback && nodes[i].present && nodes[i].capture
                &&& nodes[i].key@ == source_key
                &&& node_number(nodes[i].name@) matches Some(best) && best <= number
            },
{
    crate::create::lemma_number_is_read_back(number);
    reveal_strlit("video");
    assert(nodes[j].name@.subrange(0, 5) =~= "video"@);
    assert(is_node_of(source_key)(nodes[j]));
    let i = choose|i: int|
        {
            &&& 0 <= i < nodes.len()
            &&& is_node_of(source_key)(#[trigger] nodes[i])
            &&& path == device_file(nodes[i].name@)
            &&& forall|j: int|
                0 <= j < nodes.len() && is_node_of(source_key)(#[trigger] nodes[j])
                    ==> !is_preferred(nodes[j].name@, nodes[i].name@)
        };
    assert(!is_preferred(nodes[j].name@, nodes[i].name@));
}

/// A letter from `A` to `Z` becomes the letter at the same place from `a` to `z`; no other character
/// changes, and a text keeps its length.
pub proof fn lemma_lower_case(s: Seq<char>, i: int)
    requires
        0 <= i < s.len(),
    ensures
        lower_text(s).len() == s.len(),
        'A' <= s[i] <= 'Z' ==> lower_text(s)[i] as u32 - 'a' as u32 == s[i] as u32 - 'A' as u32,
        !('A' <= s[i] <= 'Z') ==> lower_text(s)[i] == s[i],
{
}

} // verus!
