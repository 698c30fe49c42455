//! Physical cameras that are kept out of sight, and bringing them back.
use vstd::prelude::*;

use crate::devices::{device_file, is_video_node_name, names_video_node};
use crate::error::CamShimError;
use crate::order::{sort_texts, sorted_by, text_order};
use crate::split::{
    file_name, file_name_of, lemma_filter_nothing, lemma_filter_step, lemma_map_push, lines, lines_of, split_once,
    split_once_on,
};
use crate::table::Table;
use crate::text::{
    chars_of, concat2, concat3, concat4, ends_with, has_text, opt_text, starts_with, str_eq, texts,
};

verus! {

broadcast use crate::text::group_texts;

/// Where hidden device files are kept.
pub const HIDDEN_DIR: &'static str = "/dev/cam-shim-hidden";

/// The rule file that hides a camera, if no other is named.
pub const DEFAULT_UDEV_RULE: &'static str = "/etc/udev/rules.d/99-cam-shim.rules";

/// A camera as the device manager knows it.
#[derive(Debug)]
pub struct CameraIdentity {
    pub id_serial: String,
    pub id_path: String,
    pub nodes: Vec<String>,
}

/// The properties of a device that the first `n` lines give; a later line overrides an earlier one.
pub open spec fn line_properties(lines: Seq<Seq<char>>, n: int) -> Map<Seq<char>, Seq<char>>
    decreases n,
{
    if n <= 0 {
        Map::empty()
    } else {
        let rest = line_properties(lines, n - 1);
        match split_once_on(lines[n - 1], '=') {
            Some((key, value)) => rest.insert(key, value),
            None => rest,
        }
    }
}

/// A line `key=value` gives the property, whatever an earlier line gave, and changes no other; a line
/// without `=` changes none.
pub proof fn lemma_line_property(
    lines: Seq<Seq<char>>,
    n: int,
    key: Seq<char>,
    value: Seq<char>,
    other: Seq<char>,
)
    requires
        0 < n <= lines.len(),
        !key.contains('='),
    ensures
        line_properties(lines, 0) == Map::<Seq<char>, Seq<char>>::empty(),
        lines[n - 1] == key + seq!['='] + value ==> {
            let after = line_properties(lines, n);
            let before = line_properties(lines, n - 1);
            &&& after.contains_key(key) && after[key] == value
            &&& other != key ==> (after.contains_key(other) <==> before.contains_key(other)) && (
            before.contains_key(other) ==> after[other] == before[other])
        },
        lines[n - 1] == key ==> line_properties(lines, n) == line_properties(lines, n - 1),
{
    crate::split::lemma_split_once(key, '=', value);
}

/// The properties of a device, from what the device manager printed.
pub open spec fn udev_map(output: Seq<char>) -> Map<Seq<char>, Seq<char>> {
    line_properties(lines_of(output), lines_of(output).len() as int)
}

/// The texts of a table.
pub open spec fn table_map(table: Table<String>) -> Map<Seq<char>, Seq<char>> {
    table@.map_values(|text: String| text@)
}

/// Reads the properties of a device, from what the device manager printed.
pub fn udev_properties(output: &str) -> (r: Table<String>)
    ensures
        table_map(r) == udev_map(output@),
{
    let parts = lines(output);
    let ghost all = lines_of(output@);
    let mut props: Table<String> = Table::new();
    let mut i: usize = 0;
    assert(all.len() == parts@.len());
    assert(table_map(props) =~= Map::<Seq<char>, Seq<char>>::empty());
    while i < parts.len()
        invariant
            i <= parts@.len(),
            texts(parts@) == all,
            all.len() == parts@.len(),
            table_map(props) == line_properties(all, i as int),
        decreases parts@.len() - i,
    {
        assert(all[i as int] == parts@[i as int]@);
        let ghost before = props@;
        if let Some((key, value)) = split_once(&parts[i], '=') {
            let ghost k = key@;
            let ghost v = value@;
            props.insert(key, value);
            assert(props@.map_values(|text: String| text@) =~= before.map_values(
                |text: String| text@,
            ).insert(k, v));
        }
        i += 1;
    }
    props
}

/// The error where the device manager failed.
pub fn udev_error(device_path: &str, stderr: &str) -> (r: CamShimError)
    ensures
        r.is_other("udevadm failed for "@ + device_path@ + ": "@ + stderr@),
{
    CamShimError::other(concat4("udevadm failed for ", device_path, ": ", stderr))
}

/// A property, where it is there.
pub open spec fn property_of(props: Map<Seq<char>, Seq<char>>, key: Seq<char>) -> Option<
    Seq<char>,
> {
    if props.contains_key(key) {
        Some(props[key])
    } else {
        None
    }
}

/// The serial number among the properties of a device: the long one, or else the short one.
pub open spec fn udev_serial(props: Map<Seq<char>, Seq<char>>) -> Option<Seq<char>> {
    match property_of(props, "ID_SERIAL"@) {
        Some(serial) => Some(serial),
        None => property_of(props, "ID_SERIAL_SHORT"@),
    }
}

fn get_property(props: &Table<String>, key: &str) -> (r: Option<String>)
    ensures
        opt_text(r) == property_of(table_map(*props), key@),
{
    match props.get(key) {
        Some(value) => Some(value.clone()),
        None => None,
    }
}

/// A device with either serial number has one, and the long one is taken where there are both.
pub proof fn lemma_serial_is_found(props: Map<Seq<char>, Seq<char>>)
    ensures
        udev_serial(props) is Some <==> props.contains_key("ID_SERIAL"@) || props.contains_key(
            "ID_SERIAL_SHORT"@,
        ),
        props.contains_key("ID_SERIAL"@) ==> udev_serial(props) == Some(props["ID_SERIAL"@]),
        !props.contains_key("ID_SERIAL"@) && props.contains_key("ID_SERIAL_SHORT"@)
            ==> udev_serial(props) == Some(props["ID_SERIAL_SHORT"@]),
{
}

/// The serial number among the properties of a device.
pub fn device_id_serial(props: &Table<String>) -> (r: Option<String>)
    ensures
        opt_text(r) == udev_serial(table_map(*props)),
{
    match get_property(props, "ID_SERIAL") {
        Some(serial) => Some(serial),
        None => get_property(props, "ID_SERIAL_SHORT"),
    }
}

/// The camera that a device belongs to, from the properties of the device and the capture nodes of
/// the camera.
pub fn camera_identity_from_udev(
    props: &Table<String>,
    source_device: &str,
    nodes: Vec<String>,
) -> (r: Result<CameraIdentity, CamShimError>)
    ensures
        match r {
            Ok(identity) => {
                &&& udev_serial(table_map(*props)) == Some(identity.id_serial@)
                &&& identity.id_path@ == match property_of(table_map(*props), "ID_PATH"@) {
                    Some(path) => path,
                    None => Seq::empty(),
                }
                &&& identity.nodes == nodes
            },
            Err(err) => udev_serial(table_map(*props)) is None && err.is_other(
                "could not read ID_SERIAL for "@ + source_device@ + " (is udev available?)"@,
            ),
        },
{
    let id_serial = match device_id_serial(props) {
        Some(serial) => serial,
        None => {
            return Err(
                CamShimError::other(
                    concat3(
                        "could not read ID_SERIAL for ",
                        source_device,
                        " (is udev available?)",
                    ),
                ),
            );
        },
    };
    let id_path = match get_property(props, "ID_PATH") {
        Some(path) => path,
        None => String::new(),
    };
    proof {
        if property_of(table_map(*props), "ID_PATH"@) is None {
            assert(id_path@ =~= Seq::<char>::empty());
        }
    }
    Ok(CameraIdentity { id_serial, id_path, nodes })
}

/// What two attempts to identify a camera come to: the second counts only if it succeeds.
pub fn camera_identity(
    first_error: CamShimError,
    second: Result<CameraIdentity, CamShimError>,
) -> (r: Result<CameraIdentity, CamShimError>)
    ensures
        r == match second {
            Ok(identity) => Ok(identity),
            Err(_) => Err(first_error),
        },
{
    match second {
        Ok(identity) => Ok(identity),
        Err(_) => Err(first_error),
    }
}

/// A character of a rule file's name: letters, digits and `_` stay.
pub open spec fn safe_char(c: char) -> char {
    if 'a' <= c <= 'z' || 'A' <= c <= 'Z' || '0' <= c <= '9' || c == '_' {
        c
    } else {
        '_'
    }
}

/// A text with its other characters replaced.
pub open spec fn safe_text(s: Seq<char>) -> Seq<char> {
    s.map_values(|c: char| safe_char(c))
}

/// A safe text is as long as the text, holds letters, digits and `_` alone, and keeps those that were
/// there.
pub proof fn lemma_safe_text(s: Seq<char>, i: int)
    requires
        0 <= i < s.len(),
    ensures
        safe_text(s).len() == s.len(),
        ({
            let c = safe_text(s)[i];
            'a' <= c <= 'z' || 'A' <= c <= 'Z' || '0' <= c <= '9' || c == '_'
        }),
        'a' <= s[i] <= 'z' || 'A' <= s[i] <= 'Z' || '0' <= s[i] <= '9' ==> safe_text(s)[i] == s[i],
{
}

/// The rule file that hides the camera with a serial number.
pub fn udev_rule_path_for_serial(id_serial: &str) -> (r: String)
    ensures
        r@ == rule_path(id_serial@),
        r@ == "/etc/udev/rules.d/99-cam-shim-"@ + safe_text(id_serial@) + ".rules"@,
{
    let chars = chars_of(id_serial);
    let mut safe = String::new();
    let mut i: usize = 0;
    while i < chars.len()
        invariant
            i <= chars@.len(),
            safe@ == safe_text(chars@).take(i as int),
        decreases chars@.len() - i,
    {
        let c = chars[i];
        if ('a' <= c && c <= 'z') || ('A' <= c && c <= 'Z') || ('0' <= c && c <= '9') || c == '_' {
            safe.push(c);
        } else {
            safe.push('_');
        }
        assert(safe@ =~= safe_text(chars@).take(i + 1));
        i += 1;
    }
    assert(safe_text(chars@).take(i as int) =~= safe_text(chars@));
    concat3("/etc/udev/rules.d/99-cam-shim-", &safe, ".rules")
}

/// The name of a file is that of a rule which hides a camera.
pub open spec fn names_hide_rule(name: Seq<char>) -> bool {
    "99-cam-shim"@.is_prefix_of(name) && ".rules"@.is_suffix_of(name)
}

/// The path of the rule that hides the camera with a serial number.
pub open spec fn rule_path(id_serial: Seq<char>) -> Seq<char> {
    "/etc/udev/rules.d/99-cam-shim-"@ + safe_text(id_serial) + ".rules"@
}

/// The rule for a camera is written to the rules directory under a name that is recognised as that of
/// such a rule, whatever the serial number. A file of another kind or origin is not taken for one.
pub proof fn lemma_rules_are_recognised(id_serial: Seq<char>, name: Seq<char>) -> (r: Seq<char>)
    ensures
        rule_path(id_serial) == "/etc/udev/rules.d/"@ + r,
        names_hide_rule(r),
        !"99-cam-shim"@.is_prefix_of(name) || !".rules"@.is_suffix_of(name) ==> !names_hide_rule(
            name,
        ),
{
    lemma_rule_file_is_found(id_serial);
    "99-cam-shim-"@ + safe_text(id_serial) + ".rules"@
}

/// Whether a file in the rules directory is one that hides a camera.
pub fn is_hide_rule_file(name: &str) -> (r: bool)
    ensures
        r == names_hide_rule(name@),
        r == ("99-cam-shim"@.is_prefix_of(name@) && ".rules"@.is_suffix_of(name@)),
{
    starts_with(name, "99-cam-shim") && ends_with(name, ".rules")
}

/// The name of a rule file starts and ends as such a name does, whatever the serial number.
pub proof fn lemma_rule_file_is_found(id_serial: Seq<char>)
    ensures
        ({
            let name = "99-cam-shim-"@ + safe_text(id_serial) + ".rules"@;
            &&& "99-cam-shim"@.is_prefix_of(name)
            &&& ".rules"@.is_suffix_of(name)
            &&& "/etc/udev/rules.d/99-cam-shim-"@ + safe_text(id_serial) + ".rules"@
                == "/etc/udev/rules.d/"@ + name
        }),
{
    reveal_strlit("99-cam-shim-");
    reveal_strlit("99-cam-shim");
    reveal_strlit(".rules");
    reveal_strlit("/etc/udev/rules.d/99-cam-shim-");
    reveal_strlit("/etc/udev/rules.d/");
    let name = "99-cam-shim-"@ + safe_text(id_serial) + ".rules"@;
    assert(name.subrange(0, 11) =~= "99-cam-shim"@);
    assert(name.subrange(name.len() - 6, name.len() as int) =~= ".rules"@);
    assert("/etc/udev/rules.d/99-cam-shim-"@ =~= "/etc/udev/rules.d/"@ + "99-cam-shim-"@);
    assert("/etc/udev/rules.d/99-cam-shim-"@ + safe_text(id_serial) + ".rules"@
        =~= "/etc/udev/rules.d/"@ + name);
}

/// The rule that hides the camera with a serial number.
pub open spec fn hide_rule(id_serial: Seq<char>) -> Seq<char> {
    "# Generated by cam-shim — hides the physical camera from app enumeration.\nSUBSYSTEM!=\"video4linux\", GOTO=\"cam_shim_end\"\nENV{ID_SERIAL}!=\""@
        + id_serial
        + "\", GOTO=\"cam_shim_end\"\nATTR{name}==\"*Linux Standardized*\", GOTO=\"cam_shim_end\"\nATTR{name}==\"*Linux Std*\", GOTO=\"cam_shim_end\"\n\nACTION==\"add\", RUN+=\"/bin/sh -c 'D=$env{DEVNAME}; [ -e \\\"$D\\\" ] || exit 0; /usr/bin/v4l2-ctl -d \\\"$D\\\" --all 2>/dev/null | grep -q \\\"Video Capture\\\" || exit 0; /bin/mkdir -p /dev/cam-shim-hidden; /bin/mv -f \\\"$D\\\" /dev/cam-shim-hidden/'\"\n\nLABEL=\"cam_shim_end\"\n"@
}

/// The rule that hides the camera with a serial number.
pub fn hide_rule_text(id_serial: &str) -> (r: String)
    ensures
        r@ == hide_rule(id_serial@),
{
    concat3(
        "# Generated by cam-shim — hides the physical camera from app enumeration.\nSUBSYSTEM!=\"video4linux\", GOTO=\"cam_shim_end\"\nENV{ID_SERIAL}!=\"",
        id_serial,
        "\", GOTO=\"cam_shim_end\"\nATTR{name}==\"*Linux Standardized*\", GOTO=\"cam_shim_end\"\nATTR{name}==\"*Linux Std*\", GOTO=\"cam_shim_end\"\n\nACTION==\"add\", RUN+=\"/bin/sh -c 'D=$env{DEVNAME}; [ -e \\\"$D\\\" ] || exit 0; /usr/bin/v4l2-ctl -d \\\"$D\\\" --all 2>/dev/null | grep -q \\\"Video Capture\\\" || exit 0; /bin/mkdir -p /dev/cam-shim-hidden; /bin/mv -f \\\"$D\\\" /dev/cam-shim-hidden/'\"\n\nLABEL=\"cam_shim_end\"\n",
    )
}

/// The path of a file among the hidden ones.
pub open spec fn hidden_file(name: Seq<char>) -> Seq<char> {
    HIDDEN_DIR@ + "/"@ + name
}

/// Where a device can be opened: at its path, or among the hidden ones.
pub open spec fn resolved_path(path: Seq<char>, existing: Seq<Seq<char>>) -> Option<Seq<char>> {
    if existing.contains(path) {
        Some(path)
    } else {
        match file_name_of(path) {
            Some(name) => if existing.contains(hidden_file(name)) {
                Some(hidden_file(name))
            } else {
                None
            },
            None => None,
        }
    }
}

/// A device is opened at its own path wherever that exists, else among the hidden ones if it is there;
/// where it can be opened, the file exists.
pub proof fn lemma_device_is_opened(name: Seq<char>, existing: Seq<Seq<char>>)
    requires
        !name.contains('/'),
        name.len() > 0,
        name != "."@,
        name != ".."@,
    ensures
        existing.contains("/dev/"@ + name) ==> resolved_path("/dev/"@ + name, existing) == Some(
            "/dev/"@ + name,
        ),
        !existing.contains("/dev/"@ + name) && existing.contains(
            "/dev/cam-shim-hidden"@ + "/"@ + name,
        ) ==> resolved_path("/dev/"@ + name, existing) == Some(
            "/dev/cam-shim-hidden"@ + "/"@ + name,
        ),
        resolved_path("/dev/"@ + name, existing) matches Some(path) ==> existing.contains(path),
        !existing.contains("/dev/"@ + name) && !existing.contains(
            "/dev/cam-shim-hidden"@ + "/"@ + name,
        ) ==> resolved_path("/dev/"@ + name, existing) is None,
{
    reveal_strlit("/dev/");
    reveal_strlit("/dev");
    let path = "/dev/"@ + name;
    assert(path =~= "/dev"@ + seq!['/'] + name);
    crate::split::lemma_file_name("/dev"@, name);
}

/// Where a device can be opened, if anywhere, given the files that exist.
pub fn resolve_node_path(node: &str, existing: &Vec<String>) -> (r: Option<String>)
    ensures
        opt_text(r) == resolved_path(node@, texts(existing@)),
{
    if has_text(existing, node) {
        return Some(node.to_string());
    }
    if let Some(name) = file_name(node) {
        let hidden = concat3(HIDDEN_DIR, "/", &name);
        if has_text(existing, &hidden) {
            return Some(hidden);
        }
    }
    None
}

/// Where a device can be opened; its path, if nowhere.
pub fn resolve_device_path(path: &str, existing: &Vec<String>) -> (r: String)
    ensures
        r@ == match resolved_path(path@, texts(existing@)) {
            Some(resolved) => resolved,
            None => path@,
        },
{
    match resolve_node_path(path, existing) {
        Some(resolved) => resolved,
        None => path.to_string(),
    }
}

/// Nodes that can be opened, as a predicate.
pub open spec fn is_resolved(existing: Seq<Seq<char>>) -> spec_fn(Seq<char>) -> bool {
    |node: Seq<char>| resolved_path(node, existing) is Some
}

/// `r` is where a camera with these nodes is opened.
pub open spec fn is_visible_path(
    nodes: Seq<Seq<char>>,
    fallback: Seq<char>,
    existing: Seq<Seq<char>>,
    r: Seq<char>,
) -> bool {
    let at = crate::split::first_where(nodes, is_resolved(existing));
    r == if at < nodes.len() {
        resolved_path(nodes[at], existing)->0
    } else {
        match resolved_path(fallback, existing) {
            Some(resolved) => resolved,
            None => fallback,
        }
    }
}

/// A camera is opened at a file that exists wherever one of its nodes or the fallback device can be
/// opened: at the first of its nodes that can, and at the fallback device only where none can.
pub proof fn lemma_camera_is_opened(
    nodes: Seq<Seq<char>>,
    fallback: Seq<char>,
    existing: Seq<Seq<char>>,
    r: Seq<char>,
    at: int,
)
    requires
        is_visible_path(nodes, fallback, existing, r),
    ensures
        0 <= at < nodes.len() && existing.contains(nodes[at]) && (forall|j: int|
            0 <= j < at ==> resolved_path(#[trigger] nodes[j], existing) is None) ==> r == nodes[at],
        existing.contains(r) || r == fallback,
        (forall|j: int|
            0 <= j < nodes.len() ==> resolved_path(#[trigger] nodes[j], existing) is None)
            && existing.contains(fallback) ==> r == fallback,
{
    let p = is_resolved(existing);
    crate::split::lemma_first_found(nodes, p);
    if 0 <= at < nodes.len() && existing.contains(nodes[at]) && (forall|j: int|
        0 <= j < at ==> resolved_path(#[trigger] nodes[j], existing) is None) {
        crate::split::lemma_first_where(nodes, p, at);
    }
    if forall|j: int|
        0 <= j < nodes.len() ==> resolved_path(#[trigger] nodes[j], existing) is None {
        crate::split::lemma_first_where(nodes, p, nodes.len() as int);
    }
}

/// Where a camera can be opened: at the first of its nodes that can be opened, or else as the
/// fallback device can.
pub fn visible_capture_path(
    identity: &CameraIdentity,
    fallback: &str,
    existing: &Vec<String>,
) -> (r: String)
    ensures
        is_visible_path(texts(identity.nodes@), fallback@, texts(existing@), r@),
        ({
            let nodes = texts(identity.nodes@);
            let at = crate::split::first_where(nodes, is_resolved(texts(existing@)));
            r@ == if at < nodes.len() {
                resolved_path(nodes[at], texts(existing@))->0
            } else {
                match resolved_path(fallback@, texts(existing@)) {
                    Some(resolved) => resolved,
                    None => fallback@,
                }
            }
        }),
{
    let ghost nodes = texts(identity.nodes@);
    let ghost p = is_resolved(texts(existing@));
    let mut i: usize = 0;
    assert(nodes.len() == identity.nodes@.len());
    while i < identity.nodes.len()
        invariant
            i <= identity.nodes@.len(),
            nodes == texts(identity.nodes@),
            nodes.len() == identity.nodes@.len(),
            p == is_resolved(texts(existing@)),
            forall|j: int| 0 <= j < i ==> !p(#[trigger] nodes[j]),
        decreases identity.nodes@.len() - i,
    {
        assert(nodes[i as int] == identity.nodes@[i as int]@);
        if let Some(path) = resolve_node_path(&identity.nodes[i], existing) {
            proof {
                crate::split::lemma_first_where(nodes, p, i as int);
            }
            return path;
        }
        i += 1;
    }
    proof {
        crate::split::lemma_first_where(nodes, p, i as int);
    }
    resolve_device_path(fallback, existing)
}

/// What a repair did.
#[derive(Debug)]
pub struct RestoreReport {
    pub restored: Vec<String>,
    pub ghosts_removed: Vec<String>,
    pub stale_hidden_removed: Vec<String>,
}

impl Default for RestoreReport {
    fn default() -> (r: Self)
        ensures
            r.restored@.len() == 0,
            r.ghosts_removed@.len() == 0,
            r.stale_hidden_removed@.len() == 0,
    {
        RestoreReport {
            restored: Vec::new(),
            ghosts_removed: Vec::new(),
            stale_hidden_removed: Vec::new(),
        }
    }
}

/// A repair changed something.
pub open spec fn repair_changed(report: RestoreReport) -> bool {
    report.restored@.len() > 0 || report.ghosts_removed@.len() > 0
        || report.stale_hidden_removed@.len() > 0
}

/// A repair that brought back or removed any file changed something; one that did neither did not.
pub proof fn lemma_repair_changed(report: RestoreReport)
    ensures
        report.restored@.len() > 0 ==> repair_changed(report),
        report.ghosts_removed@.len() > 0 ==> repair_changed(report),
        report.stale_hidden_removed@.len() > 0 ==> repair_changed(report),
        report.restored@.len() + report.ghosts_removed@.len() + report.stale_hidden_removed@.len()
            == 0 ==> !repair_changed(report),
{
}

impl RestoreReport {
    /// Whether the repair changed anything, so that the device manager has to look again.
    pub fn changed(&self) -> (r: bool)
        ensures
            r == repair_changed(*self),
            r == (self.restored@.len() > 0 || self.ghosts_removed@.len() > 0
                || self.stale_hidden_removed@.len() > 0),
    {
        self.restored.len() > 0 || self.ghosts_removed.len() > 0 || self.stale_hidden_removed.len()
            > 0
    }
}

/// A file among the hidden ones.
#[derive(Debug)]
pub struct HiddenEntry {
    pub name: String,
    pub is_dir: bool,
    /// The system knows a video node of that name.
    pub known: bool,
    /// That video node belongs to a virtual device.
    pub loopback: bool,
}

/// The file hides a camera that the system still knows under that name. Once a virtual device has
/// taken the name, the camera is not there any more.
pub open spec fn hides_camera(entry: HiddenEntry) -> bool {
    !entry.is_dir && "video"@.is_prefix_of(entry.name@) && entry.known && !entry.loopback
}

/// The file hides nothing any more.
pub open spec fn is_left_over(entry: HiddenEntry) -> bool {
    !entry.is_dir && "video"@.is_prefix_of(entry.name@) && !(entry.known && !entry.loopback)
}

/// Whether a hidden file hides nothing any more, and is to be removed.
pub fn is_stale_hidden(entry: &HiddenEntry) -> (r: bool)
    ensures
        r == is_left_over(*entry),
{
    !entry.is_dir && starts_with(&entry.name, "video") && !(entry.known && !entry.loopback)
}

/// What is done about a hidden file.
#[derive(Debug, Clone, Copy, PartialEq, Eq, Structural)]
pub enum RestoreStep {
    /// Leave it.
    Leave,
    /// Remove it: the camera is in sight already.
    DropHidden,
    /// Remove what has taken its place, then bring it back.
    ReplaceGhost,
    /// Bring it back.
    Restore,
}

/// What is done about a hidden file.
pub open spec fn fate_of(entry: HiddenEntry, in_place: bool, ghost_in_place: bool) -> RestoreStep {
    if !hides_camera(entry) {
        RestoreStep::Leave
    } else if !in_place {
        RestoreStep::Restore
    } else if ghost_in_place {
        RestoreStep::ReplaceGhost
    } else {
        RestoreStep::DropHidden
    }
}

/// A hidden camera that the system knows always comes back into sight: its file is brought back unless
/// the camera is in sight already, and only then it is removed. A file that hides no such camera is
/// left alone.
pub proof fn lemma_hidden_camera_comes_back(
    entry: HiddenEntry,
    in_place: bool,
    ghost_in_place: bool,
)
    ensures
        !entry.is_dir && "video"@.is_prefix_of(entry.name@) && entry.known && !entry.loopback ==> {
            let fate = fate_of(entry, in_place, ghost_in_place);
            &&& fate == RestoreStep::Restore <==> !in_place
            &&& fate == RestoreStep::ReplaceGhost <==> in_place && ghost_in_place
            &&& fate == RestoreStep::DropHidden <==> in_place && !ghost_in_place
        },
        entry.is_dir || !"video"@.is_prefix_of(entry.name@) || !entry.known || entry.loopback
            ==> fate_of(entry, in_place, ghost_in_place) == RestoreStep::Leave,
        is_left_over(entry) <==> !entry.is_dir && "video"@.is_prefix_of(entry.name@) && (
        !entry.known || entry.loopback),
{
}

/// What is done about a hidden file, given whether something stands in its place and whether that
/// is a left-over device file.
pub fn restore_step(entry: &HiddenEntry, in_place: bool, ghost_in_place: bool) -> (r: RestoreStep)
    ensures
        r == fate_of(*entry, in_place, ghost_in_place),
        r == if !hides_camera(*entry) {
            RestoreStep::Leave
        } else if !in_place {
            RestoreStep::Restore
        } else if ghost_in_place {
            RestoreStep::ReplaceGhost
        } else {
            RestoreStep::DropHidden
        },
{
    if entry.is_dir || !starts_with(&entry.name, "video") || !entry.known || entry.loopback {
        return RestoreStep::Leave;
    }
    if !in_place {
        RestoreStep::Restore
    } else if ghost_in_place {
        RestoreStep::ReplaceGhost
    } else {
        RestoreStep::DropHidden
    }
}

/// No hidden file is both brought back and removed as left over, and every video file among the
/// hidden ones is one or the other.
pub proof fn lemma_hidden_file_has_one_fate(entry: HiddenEntry)
    ensures
        !(hides_camera(entry) && is_left_over(entry)),
        !entry.is_dir && "video"@.is_prefix_of(entry.name@) ==> hides_camera(entry) || is_left_over(
            entry,
        ),
{
}

/// Hidden device files, as a predicate.
pub open spec fn is_hidden_node() -> spec_fn(HiddenEntry) -> bool {
    |entry: HiddenEntry| !entry.is_dir && names_video_node(entry.name@)
}

/// The names of files.
pub open spec fn entry_names(entries: Seq<HiddenEntry>) -> Seq<Seq<char>> {
    entries.map_values(|entry: HiddenEntry| entry.name@)
}

/// The names of the hidden device files, in text order.
pub fn hidden_video_names(entries: &Vec<HiddenEntry>) -> (r: Vec<String>)
    ensures
        sorted_by(entry_names(entries@.filter(is_hidden_node())), texts(r@), text_order()),
{
    let ghost p = is_hidden_node();
    let ghost f = |entry: HiddenEntry| entry.name@;
    let mut out: Vec<String> = Vec::new();
    let mut i: usize = 0;
    proof {
        lemma_filter_nothing(entries@, p);
        assert(texts(out@) =~= entry_names(entries@.take(0).filter(p)));
    }
    while i < entries.len()
        invariant
            i <= entries@.len(),
            p == is_hidden_node(),
            f == (|entry: HiddenEntry| entry.name@),
            texts(out@) == entry_names(entries@.take(i as int).filter(p)),
        decreases entries@.len() - i,
    {
        proof {
            lemma_filter_step(entries@, p, i as int);
            lemma_map_push(entries@.take(i as int).filter(p), f, entries@[i as int]);
        }
        if !entries[i].is_dir && is_video_node_name(&entries[i].name) {
            out.push(entries[i].name.clone());
        }
        i += 1;
    }
    proof {
        lemma_filter_nothing(entries@, p);
    }
    sort_texts(&out)
}

/// The hidden device files that are listed are the files that are named `video` and digits, each as
/// often as it is there, in text order; their number is the length of the list.
pub proof fn lemma_hidden_names(entries: Seq<HiddenEntry>, names: Seq<Seq<char>>, name: Seq<char>)
    requires
        sorted_by(entry_names(entries.filter(is_hidden_node())), names, text_order()),
    ensures
        names.contains(name) <==> exists|i: int|
            {
                &&& 0 <= i < entries.len()
                &&& (#[trigger] entries[i]).name@ == name
                &&& !entries[i].is_dir
                &&& "video"@.is_prefix_of(name)
                &&& crate::text::all_digits(name.skip("video"@.len() as int))
            },
        names.len() == entries.filter(is_hidden_node()).len(),
{
    let p = is_hidden_node();
    let kept = entries.filter(p);
    let listed = entry_names(kept);
    assert forall|a: Seq<char>| !#[trigger] text_order()(a, a) by {
        crate::order::lemma_text_before_total(a, a);
    }
    crate::order::lemma_sorted_members(listed, names, text_order(), name);
    assert(name.subrange("video"@.len() as int, name.len() as int) =~= name.skip(
        "video"@.len() as int,
    ));
    if listed.contains(name) {
        let k = choose|k: int| 0 <= k < listed.len() && listed[k] == name;
        assert(kept[k].name@ == name);
        assert(kept.contains(kept[k]));
        crate::split::lemma_filter_members(entries, p, kept[k]);
        let i = choose|i: int| 0 <= i < entries.len() && entries[i] == kept[k];
        assert(entries[i].name@ == name);
    }
    if exists|i: int|
        {
            &&& 0 <= i < entries.len()
            &&& (#[trigger] entries[i]).name@ == name
            &&& !entries[i].is_dir
            &&& "video"@.is_prefix_of(name)
            &&& crate::text::all_digits(name.skip("video"@.len() as int))
        } {
        let i = choose|i: int|
            {
                &&& 0 <= i < entries.len()
                &&& (#[trigger] entries[i]).name@ == name
                &&& !entries[i].is_dir
                &&& "video"@.is_prefix_of(name)
                &&& crate::text::all_digits(name.skip("video"@.len() as int))
            };
        assert(p(entries[i]));
        assert(entries.contains(entries[i]));
        crate::split::lemma_filter_members(entries, p, entries[i]);
        let k = choose|k: int| 0 <= k < kept.len() && kept[k] == entries[i];
        assert(listed[k] == name);
    }
}

/// The number of hidden device files.
pub fn hidden_camera_count(entries: &Vec<HiddenEntry>) -> (r: usize)
    ensures
        r == entries@.filter(is_hidden_node()).len(),
{
    let names = hidden_video_names(entries);
    assert(texts(names@).len() == names@.len());
    names.len()
}

/// What comes of hiding a device file.
pub open spec fn is_hide_target(
    device_path: Seq<char>,
    present: bool,
    capture: bool,
    target: Result<Option<Seq<char>>, ()>,
) -> bool {
    match target {
        Ok(None) => !present || !capture,
        Ok(Some(target)) => present && capture && (file_name_of(device_path) matches Some(name)
            && target == hidden_file(name)),
        Err(()) => present && capture && file_name_of(device_path) is None,
    }
}

/// A device that is there and captures video is hidden, under its name in the directory of hidden files;
/// once it is there and its own path is gone, it is opened there.
pub proof fn lemma_hidden_device_is_found(
    name: Seq<char>,
    present: bool,
    capture: bool,
    target: Result<Option<Seq<char>>, ()>,
    existing: Seq<Seq<char>>,
)
    requires
        !name.contains('/'),
        name.len() > 0,
        name != "."@,
        name != ".."@,
        is_hide_target("/dev/"@ + name, present, capture, target),
    ensures
        present && capture ==> target == Ok::<Option<Seq<char>>, ()>(
            Some("/dev/cam-shim-hidden"@ + "/"@ + name),
        ),
        !present || !capture ==> target == Ok::<Option<Seq<char>>, ()>(None),
        target matches Ok(Some(path)) ==> (existing.contains(path) && !existing.contains(
            "/dev/"@ + name,
        ) ==> resolved_path("/dev/"@ + name, existing) == Some(path)),
{
    reveal_strlit("/dev/");
    reveal_strlit("/dev");
    assert("/dev/"@ + name =~= "/dev"@ + seq!['/'] + name);
    crate::split::lemma_file_name("/dev"@, name);
}

/// Where a device file goes when it is hidden; none where it is not: it is not there, or does not
/// capture video.
pub fn hide_target(device_path: &str, present: bool, capture: bool) -> (r: Result<
    Option<String>,
    CamShimError,
>)
    ensures
        is_hide_target(
            device_path@,
            present,
            capture,
            match r {
                Ok(target) => Ok(opt_text(target)),
                Err(_) => Err(()),
            },
        ),
        match r {
            Ok(None) => !present || !capture,
            Ok(Some(target)) => present && capture && (file_name_of(device_path@) matches Some(name)
                && target@ == hidden_file(name)),
            Err(err) => present && capture && file_name_of(device_path@) is None && err.is_other(
                "invalid device path"@,
            ),
        },
{
    if !present || !capture {
        return Ok(None);
    }
    match file_name(device_path) {
        Some(name) => Ok(Some(concat3(HIDDEN_DIR, "/", &name))),
        None => Err(CamShimError::other("invalid device path".to_string())),
    }
}

/// A video node, where it can be opened, and what the device manager knows of it.
#[derive(Debug)]
pub struct UdevNode {
    pub name: String,
    /// The node belongs to a virtual device.
    pub loopback: bool,
    /// The serial number, where the device manager answered and has one.
    pub serial: Option<String>,
    /// The node captures video.
    pub capture: bool,
}

/// Capture nodes with the given serial number.
pub open spec fn has_serial(id_serial: Seq<char>) -> spec_fn(UdevNode) -> bool {
    |node: UdevNode|
        !node.loopback && "video"@.is_prefix_of(node.name@) && opt_text(node.serial) == Some(
            id_serial,
        ) && node.capture
}

/// Where nodes can be opened; their paths, where they cannot.
pub open spec fn node_places(nodes: Seq<UdevNode>, existing: Seq<Seq<char>>) -> Seq<Seq<char>> {
    nodes.map_values(
        |node: UdevNode|
            match resolved_path(device_file(node.name@), existing) {
                Some(path) => path,
                None => device_file(node.name@),
            },
    )
}

/// The nodes of a camera are the physical capture nodes with its serial number, and no others; each is
/// listed at its own path wherever that exists.
pub proof fn lemma_camera_nodes(
    nodes: Seq<UdevNode>,
    id_serial: Seq<char>,
    existing: Seq<Seq<char>>,
    places: Seq<Seq<char>>,
    i: int,
    k: int,
)
    requires
        sorted_by(node_places(nodes.filter(has_serial(id_serial)), existing), places, text_order()),
    ensures
        0 <= i < nodes.len() && !nodes[i].loopback && nodes[i].capture && "video"@.is_prefix_of(
            nodes[i].name@,
        ) && opt_text(nodes[i].serial) == Some(id_serial) && existing.contains(
            "/dev/"@ + nodes[i].name@,
        ) ==> places.contains("/dev/"@ + nodes[i].name@),
        0 <= k < places.len() ==> exists|j: int|
            {
                &&& 0 <= j < nodes.len()
                &&& !(#[trigger] nodes[j]).loopback
                &&& nodes[j].capture
                &&& opt_text(nodes[j].serial) == Some(id_serial)
                &&& places[k] == "/dev/"@ + nodes[j].name@ || existing.contains(places[k])
            },
{
    let p = has_serial(id_serial);
    let kept = nodes.filter(p);
    let listed = node_places(kept, existing);
    assert forall|a: Seq<char>| !#[trigger] text_order()(a, a) by {
        crate::order::lemma_text_before_total(a, a);
    }
    if 0 <= i < nodes.len() && p(nodes[i]) && existing.contains("/dev/"@ + nodes[i].name@) {
        assert(nodes.contains(nodes[i]));
        crate::split::lemma_filter_members(nodes, p, nodes[i]);
        let m = choose|m: int| 0 <= m < kept.len() && kept[m] == nodes[i];
        assert(listed[m] == "/dev/"@ + nodes[i].name@);
        assert(listed.contains(listed[m]));
        crate::order::lemma_sorted_members(listed, places, text_order(), listed[m]);
    }
    if 0 <= k < places.len() {
        assert(places.contains(places[k]));
        crate::order::lemma_sorted_members(listed, places, text_order(), places[k]);
        let m = choose|m: int| 0 <= m < listed.len() && listed[m] == places[k];
        assert(kept.contains(kept[m]));
        crate::split::lemma_filter_members(nodes, p, kept[m]);
        let j = choose|j: int| 0 <= j < nodes.len() && nodes[j] == kept[m];
        assert(p(nodes[j]));
    }
}

/// The capture nodes with a serial number, in text order, wherever they can be opened.
pub fn related_video_nodes(nodes: &Vec<UdevNode>, id_serial: &str, existing: &Vec<String>) -> (r: Vec<
    String,
>)
    ensures
        sorted_by(
            node_places(nodes@.filter(has_serial(id_serial@)), texts(existing@)),
            texts(r@),
            text_order(),
        ),
{
    let ghost p = has_serial(id_serial@);
    let ghost places = texts(existing@);
    let mut out: Vec<String> = Vec::new();
    let mut i: usize = 0;
    proof {
        lemma_filter_nothing(nodes@, p);
        assert(texts(out@) =~= node_places(nodes@.take(0).filter(p), places));
    }
    while i < nodes.len()
        invariant
            i <= nodes@.len(),
            p == has_serial(id_serial@),
            places == texts(existing@),
            texts(out@) == node_places(nodes@.take(i as int).filter(p), places),
        decreases nodes@.len() - i,
    {
        let ghost seen = nodes@.take(i as int).filter(p);
        let ghost before = texts(out@);
        proof {
            lemma_filter_step(nodes@, p, i as int);
        }
        let node = &nodes[i];
        let same = match &node.serial {
            Some(serial) => str_eq(serial, id_serial),
            None => false,
        };
        if !node.loopback && starts_with(&node.name, "video") && same && node.capture {
            let path = resolve_device_path(&concat2("/dev/", &node.name), existing);
            out.push(path);
            assert(node_places(seen.push(nodes@[i as int]), places) =~= node_places(
                seen,
                places,
            ).push(path@));
        }
        i += 1;
    }
    proof {
        lemma_filter_nothing(nodes@, p);
    }
    sort_texts(&out)
}

} // verus!
