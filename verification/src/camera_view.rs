//! Physical and virtual cameras side by side: which belong together, and which one to use.
use vstd::prelude::*;

use crate::compat::{
    field_text, kernel_card_label, kernel_label, kernel_label_field, lemma_field_keeps_label,
    plain_label, standardized, standardized_label,
};
use crate::devices::{physical_camera_key_with_name, DeviceLevel};
use crate::loopback::{
    device_views, is_cam_shim_loopback, is_own_name, LoopbackDeviceInfo,
};
use crate::order::{
    as_positions, lemma_order_of_items, lemma_positions_in_range, picked, sorted_by, stable_order,
    text_before,
};
use crate::probe::{node_keys, report_models, DeviceReport, ReportModel};
use crate::runtime::{
    loopback_models, managed_models, LoopbackModel, ManagedCameraSnapshot, ManagedModel,
    RuntimeSnapshot, SupervisorStateSnapshot,
};
use crate::split::{after_last, first_where, lemma_first_found, lemma_first_where, split_on};
use crate::table::Table;
use crate::text::{
    add_line, add_line_if, add_lines, concat2, concat6, decimal, decimal_of, ends_with, is_empty, join, joined,
    line_if, opt_text, parse_u32, parsed_number, starts_with, str_eq, strip_prefix, strip_suffix, texts, trim,
    trimmed, without_prefix, without_suffix,
};

verus! {

broadcast use crate::text::group_texts;

/// What a device is.
#[derive(Debug, Clone, Copy, PartialEq, Eq, Structural)]
pub enum DeviceRole {
    Physical,
    VirtualCamShim,
    VirtualOther,
}

/// A virtual camera to pick in apps, and the camera that it stands for.
#[derive(Debug)]
pub struct RecommendedDevice {
    pub path: String,
    pub name: String,
    pub for_physical: String,
}

impl View for RecommendedDevice {
    type V = (Seq<char>, Seq<char>, Seq<char>);

    open spec fn view(&self) -> (Seq<char>, Seq<char>, Seq<char>) {
        (self.path@, self.name@, self.for_physical@)
    }
}

/// A device as it is shown.
#[derive(Debug)]
pub struct DeviceView {
    pub path: String,
    pub name: String,
    pub role: DeviceRole,
    pub tags: Vec<String>,
    pub paired_with: Option<String>,
    pub use_in_apps: bool,
    pub needs_shim: bool,
    pub compatible: bool,
    pub standardized_name: Option<String>,
    pub driver: Option<String>,
    pub bus: Option<String>,
    pub advertised_fps: Vec<String>,
    pub issues: Vec<String>,
}

/// The contents of a device view.
#[verifier::ext_equal]
pub ghost struct ViewModel {
    pub path: Seq<char>,
    pub name: Seq<char>,
    pub role: DeviceRole,
    pub tags: Seq<Seq<char>>,
    pub paired_with: Option<Seq<char>>,
    pub use_in_apps: bool,
    pub needs_shim: bool,
    pub compatible: bool,
    pub standardized_name: Option<Seq<char>>,
    pub driver: Option<Seq<char>>,
    pub bus: Option<Seq<char>>,
    pub advertised_fps: Seq<Seq<char>>,
    pub issues: Seq<Seq<char>>,
}

impl View for DeviceView {
    type V = ViewModel;

    open spec fn view(&self) -> ViewModel {
        ViewModel {
            path: self.path@,
            name: self.name@,
            role: self.role,
            tags: texts(self.tags@),
            paired_with: opt_text(self.paired_with),
            use_in_apps: self.use_in_apps,
            needs_shim: self.needs_shim,
            compatible: self.compatible,
            standardized_name: opt_text(self.standardized_name),
            driver: opt_text(self.driver),
            bus: opt_text(self.bus),
            advertised_fps: texts(self.advertised_fps@),
            issues: texts(self.issues@),
        }
    }
}

fn clone_text(s: &Option<String>) -> (r: Option<String>)
    ensures
        opt_text(r) == opt_text(*s),
{
    match s {
        Some(s) => Some(s.clone()),
        None => None,
    }
}

impl Clone for DeviceView {
    fn clone(&self) -> (r: Self)
        ensures
            r@ == self@,
    {
        DeviceView {
            path: self.path.clone(),
            name: self.name.clone(),
            role: self.role,
            tags: self.tags.clone(),
            paired_with: clone_text(&self.paired_with),
            use_in_apps: self.use_in_apps,
            needs_shim: self.needs_shim,
            compatible: self.compatible,
            standardized_name: clone_text(&self.standardized_name),
            driver: clone_text(&self.driver),
            bus: clone_text(&self.bus),
            advertised_fps: self.advertised_fps.clone(),
            issues: self.issues.clone(),
        }
    }
}

/// The contents of device views.
pub open spec fn view_models(devices: Seq<DeviceView>) -> Seq<ViewModel> {
    devices.map_values(|device: DeviceView| device@)
}

/// The contents of recommendations.
pub open spec fn recommended_views(devices: Seq<RecommendedDevice>) -> Seq<
    (Seq<char>, Seq<char>, Seq<char>),
> {
    devices.map_values(|device: RecommendedDevice| device@)
}

/// All devices, and which ones to use.
#[derive(Debug)]
pub struct ScanReport {
    pub serve_running: bool,
    pub devices: Vec<DeviceView>,
    pub recommended_devices: Vec<RecommendedDevice>,
}

/// `s` without `end` as often as it ends with it.
pub open spec fn without_trailing(s: Seq<char>, end: Seq<char>) -> Seq<char>
    decreases s.len(),
{
    if end.len() > 0 && end.is_suffix_of(s) {
        without_trailing(s.subrange(0, s.len() - end.len()), end)
    } else {
        s
    }
}

fn trim_end_matches(s: &str, end: &str) -> (r: String)
    ensures
        r@ == without_trailing(s@, end@),
{
    let mut text = s.to_string();
    if is_empty(end) {
        return text;
    }
    loop
        invariant_except_break
            end@.len() > 0,
            without_trailing(text@, end@) == without_trailing(s@, end@),
        ensures
            text@ == without_trailing(s@, end@),
        decreases text@.len(),
    {
        match strip_suffix(&text, end) {
            Some(rest) => {
                text = rest;
            },
            None => {
                break;
            },
        }
    }
    text
}

/// One text begins the other.
pub open spec fn begins_other(a: Seq<char>, b: Seq<char>) -> bool {
    a.is_prefix_of(b) || b.is_prefix_of(a)
}

/// The virtual name is the physical one, cut or not, with the given suffix.
pub open spec fn suffix_matches(physical: Seq<char>, virt: Seq<char>, suffix: Seq<char>) -> bool {
    without_suffix(virt, suffix) matches Some(base) && begins_other(base, physical)
}

/// The name of a virtual camera is one that this program gave for a camera of the given name,
/// whether the kernel cut it or not.
pub open spec fn names_match(physical_name: Seq<char>, virtual_name: Seq<char>) -> bool {
    let phys = plain_label(physical_name);
    let virt = plain_label(virtual_name);
    let cut = trimmed(without_trailing(virt, " -"@));
    &&& is_own_name(virtual_name)
    &&& {
        ||| virtual_name == standardized(physical_name)
        ||| virtual_name == kernel_label(standardized(physical_name))
        ||| phys.is_prefix_of(virt)
        ||| suffix_matches(phys, virt, " - Linux Standardized"@)
        ||| suffix_matches(phys, virt, " - Linux Std"@)
        ||| " -"@.is_suffix_of(virt) && cut.len() > 0 && begins_other(cut, phys)
    }
}

fn normalize_card_name(name: &str) -> (r: String)
    ensures
        r@ == plain_label(name@),
{
    let name = trim(name);
    match strip_prefix(&name, "webcam: ") {
        Some(rest) => rest,
        None => name,
    }
}

fn base_matches(phys: &str, virt: &str, suffix: &str) -> (r: bool)
    ensures
        r == suffix_matches(phys@, virt@, suffix@),
{
    match strip_suffix(virt, suffix) {
        Some(base) => starts_with(phys, &base) || starts_with(&base, phys),
        None => false,
    }
}

/// Whether the name of a virtual camera is one that this program gave for a camera of the given
/// name.
pub fn virtual_matches_physical(physical_name: &str, virtual_name: &str) -> (r: bool)
    ensures
        r == names_match(physical_name@, virtual_name@),
{
    if !is_cam_shim_loopback(virtual_name) {
        return false;
    }
    let expected = standardized_label(physical_name);
    if str_eq(virtual_name, &expected) {
        return true;
    }
    let kernel = kernel_card_label(&expected);
    if str_eq(virtual_name, &kernel) {
        return true;
    }
    let phys = normalize_card_name(physical_name);
    let virt = normalize_card_name(virtual_name);
    if starts_with(&virt, &phys) {
        return true;
    }
    if base_matches(&phys, &virt, " - Linux Standardized") || base_matches(
        &phys,
        &virt,
        " - Linux Std",
    ) {
        return true;
    }
    if ends_with(&virt, " -") {
        let prefix = trim(&trim_end_matches(&virt, " -"));
        if !is_empty(&prefix) && (starts_with(&phys, &prefix) || starts_with(&prefix, &phys)) {
            return true;
        }
    }
    false
}

proof fn lemma_plain(s: Seq<char>)
    requires
        s.len() > 0,
        !crate::text::is_space(s[0]),
        !crate::text::is_space(s.last()),
        !"webcam: "@.is_prefix_of(s),
    ensures
        plain_label(s) == s,
{
    let none = Seq::<char>::empty();
    crate::text::lemma_trimmed(none, s, none);
    assert(none + s + none =~= s);
}

proof fn lemma_trailing_is_cut(s: Seq<char>, end: Seq<char>)
    ensures
        without_trailing(s, end).is_prefix_of(s),
    decreases s.len(),
{
    if end.len() > 0 && end.is_suffix_of(s) {
        let rest = s.subrange(0, s.len() - end.len());
        lemma_trailing_is_cut(rest, end);
        let cut = without_trailing(rest, end);
        assert(cut =~= rest.subrange(0, cut.len() as int));
        assert(cut =~= s.subrange(0, cut.len() as int));
    }
}

/// A virtual camera whose label was cut is still that of its camera: what is left of the name of the
/// camera, with any of the suffixes that this program gives or the dash that is left of one.
pub proof fn lemma_cut_label_matches(base: Seq<char>, rest: Seq<char>)
    requires
        base.len() > 0,
        !crate::text::is_space(base[0]),
        !crate::text::is_space(base.last()),
        base.last() != '-',
        rest.len() > 0 ==> !crate::text::is_space(rest.last()),
        !"webcam: "@.is_prefix_of(base + rest),
        !"webcam: "@.is_prefix_of(base + " - Linux Standardized"@),
        !"webcam: "@.is_prefix_of(base + " - Linux Std"@),
        !"webcam: "@.is_prefix_of(base + " -"@),
    ensures
        names_match(base + rest, base + " - Linux Standardized"@),
        names_match(base + rest, base + " - Linux Std"@),
        names_match(base + rest, base + " -"@),
{
    reveal_strlit(" - Linux Standardized");
    reveal_strlit(" - Linux Std");
    reveal_strlit(" -");
    reveal_strlit("Linux Standardized");
    reveal_strlit("Linux Std");
    let phys = base + rest;
    assert(phys[0] == base[0]);
    assert(phys.last() == if rest.len() > 0 {
        rest.last()
    } else {
        base.last()
    });
    lemma_plain(phys);
    assert(base.is_prefix_of(phys));
    let full = base + " - Linux Standardized"@;
    assert(full[0] == base[0] && full.last() == 'd');
    lemma_plain(full);
    assert(full.subrange(base.len() as int + 3, full.len() as int) =~= "Linux Standardized"@);
    assert(crate::text::occurs_at(full, "Linux Standardized"@, base.len() as int + 3));
    crate::loopback::lemma_own_names(full);
    assert(" - Linux Standardized"@.is_suffix_of(full)) by {
        assert(full.subrange(base.len() as int, full.len() as int) =~= " - Linux Standardized"@);
    }
    assert(full.subrange(0, full.len() - " - Linux Standardized"@.len()) =~= base);
    let short = base + " - Linux Std"@;
    assert(short[0] == base[0] && short.last() == 'd');
    lemma_plain(short);
    assert(short.subrange(base.len() as int + 3, short.len() as int) =~= "Linux Std"@);
    assert(crate::text::occurs_at(short, "Linux Std"@, base.len() as int + 3));
    crate::loopback::lemma_own_names(short);
    assert(" - Linux Std"@.is_suffix_of(short)) by {
        assert(short.subrange(base.len() as int, short.len() as int) =~= " - Linux Std"@);
    }
    assert(short.subrange(0, short.len() - " - Linux Std"@.len()) =~= base);
    let cut = base + " -"@;
    assert(cut[0] == base[0] && cut.last() == '-');
    lemma_plain(cut);
    assert(" -"@.is_suffix_of(cut)) by {
        assert(cut.subrange(base.len() as int, cut.len() as int) =~= " -"@);
    }
    crate::loopback::lemma_own_names(cut);
    assert(cut.subrange(0, cut.len() - " -"@.len()) =~= base);
    assert(!" -"@.is_suffix_of(base)) by {
        if " -"@.is_suffix_of(base) {
            assert(base.subrange(base.len() - 2, base.len() as int)[1] == " -"@[1]);
        }
    }
    assert(without_trailing(base, " -"@) == base);
    assert(without_trailing(cut, " -"@) == base);
    let none = Seq::<char>::empty();
    crate::text::lemma_trimmed(none, base, none);
    assert(none + base + none =~= base);
}

/// A virtual camera that does not show the label of a camera, and whose name begins otherwise than that
/// of the camera, is not taken for its own; nor is one that does not show a label of this program.
pub proof fn lemma_other_name_does_not_match(physical_name: Seq<char>, virtual_name: Seq<char>)
    requires
        physical_name.len() > 0,
        !crate::text::is_space(physical_name[0]),
        !crate::text::is_space(physical_name.last()),
        !"webcam: "@.is_prefix_of(physical_name),
        virtual_name.len() > 0,
        !crate::text::is_space(virtual_name[0]),
        !crate::text::is_space(virtual_name.last()),
        !"webcam: "@.is_prefix_of(virtual_name),
    ensures
        virtual_name != standardized(physical_name) && virtual_name != kernel_label(
            standardized(physical_name),
        ) && virtual_name[0] != physical_name[0] ==> !names_match(physical_name, virtual_name),
        !is_own_name(virtual_name) ==> !names_match(physical_name, virtual_name),
{
    lemma_plain(physical_name);
    lemma_plain(virtual_name);
    reveal_strlit(" - Linux Standardized");
    reveal_strlit(" - Linux Std");
    let left = without_trailing(virtual_name, " -"@);
    lemma_trailing_is_cut(virtual_name, " -"@);
    let (before, after) = crate::text::lemma_trimmed_parts(left);
    let cut = trimmed(left);
    if cut.len() > 0 {
        assert(left[0] == virtual_name[0]);
        assert(before.len() == 0) by {
            if before.len() > 0 {
                assert(left[0] == before[0]);
            }
        }
        assert(cut[0] == left[0]);
    }
    lemma_suffix_begins_alike(physical_name, virtual_name, " - Linux Standardized"@);
    lemma_suffix_begins_alike(physical_name, virtual_name, " - Linux Std"@);
    if cut.len() > 0 && begins_other(cut, physical_name) {
        lemma_begins_alike(cut, physical_name);
    }
    if physical_name.is_prefix_of(virtual_name) {
        lemma_begins_alike(physical_name, virtual_name);
    }
}

proof fn lemma_begins_alike(a: Seq<char>, b: Seq<char>)
    requires
        a.len() > 0,
        b.len() > 0,
        begins_other(a, b),
    ensures
        a[0] == b[0],
{
    if a.is_prefix_of(b) {
        assert(b.subrange(0, a.len() as int)[0] == b[0]);
    } else {
        assert(a.subrange(0, b.len() as int)[0] == a[0]);
    }
}

proof fn lemma_suffix_begins_alike(physical: Seq<char>, virt: Seq<char>, suffix: Seq<char>)
    requires
        physical.len() > 0,
        virt.len() > 0,
        suffix.len() > 0,
        crate::text::is_space(suffix[0]),
        !crate::text::is_space(virt[0]),
    ensures
        suffix_matches(physical, virt, suffix) ==> virt[0] == physical[0],
{
    if suffix_matches(physical, virt, suffix) {
        let base = virt.subrange(0, virt.len() - suffix.len());
        if base.len() == 0 {
            assert(virt =~= virt.subrange(virt.len() - suffix.len(), virt.len() as int));
        } else {
            assert(base[0] == virt[0]);
            lemma_begins_alike(base, physical);
        }
    }
}

/// The virtual camera that is made for a camera is paired with it, whatever its name: with the full
/// label, with the one that the kernel module is given, and with what the kernel reads back from
/// its label field.
pub proof fn lemma_own_virtual_camera_is_paired(name: Seq<char>)
    ensures
        names_match(name, standardized(name)),
        names_match(name, kernel_label(standardized(name))),
        !kernel_label(standardized(name)).contains('\0') ==> names_match(
            name,
            field_text(kernel_label_field(standardized(name))),
        ),
{
    if !kernel_label(standardized(name)).contains('\0') {
        lemma_field_keeps_label(standardized(name));
    }
    crate::loopback::lemma_own_label_is_recognised(name);
}

/// The number in the path of a video device.
pub open spec fn number_in_path(path: Seq<char>) -> Option<nat> {
    match without_prefix(split_on(path, '/').last(), "video"@) {
        Some(digits) => parsed_number(digits, u32::MAX as nat),
        None => None,
    }
}

/// The number of a video device is read from its path, in whatever directory it is.
pub proof fn lemma_number_in_path(dir: Seq<char>, nr: nat)
    requires
        nr <= u32::MAX,
    ensures
        number_in_path(dir + seq!['/'] + ("video"@ + decimal(nr))) == Some(nr),
{
    let name = "video"@ + decimal(nr);
    crate::text::lemma_decimal_parses(nr);
    crate::text::lemma_number_roundtrip(nr, u32::MAX as nat);
    reveal_strlit("video");
    assert(!name.contains('/')) by {
        if name.contains('/') {
            let i = choose|i: int| 0 <= i < name.len() && name[i] == '/';
            if i >= 5 {
                assert(decimal(nr)[i - 5] == '/');
                assert(crate::text::is_digit(decimal(nr)[i - 5]));
            }
        }
    }
    crate::split::lemma_split_tail(dir, '/', name);
    assert("video"@.is_prefix_of(name));
    assert(name.subrange("video"@.len() as int, name.len() as int) =~= decimal(nr));
}

/// The number in the path of a video device.
pub fn video_index_from_path(path: &str) -> (r: Option<u32>)
    ensures
        match r {
            Some(n) => number_in_path(path@) == Some(n as nat),
            None => number_in_path(path@) is None,
        },
{
    let name = after_last(path, '/');
    match strip_prefix(&name, "video") {
        Some(digits) => parse_u32(&digits),
        None => None,
    }
}

/// The loopback device that the supervisor uses for a camera, from the first `n` cameras that it
/// manages. One in quarantine has none, and of several the last one counts.
pub open spec fn managed_loopback(
    managed: Seq<ManagedModel>,
    key: Seq<char>,
    n: int,
) -> Option<Seq<char>>
    decreases n,
{
    if n <= 0 {
        None
    } else if !managed[n - 1].quarantined && managed[n - 1].serial == key {
        Some(managed[n - 1].loopback_path)
    } else {
        managed_loopback(managed, key, n - 1)
    }
}

/// Loopback devices whose name fits the camera, as a predicate.
pub open spec fn is_virtual_of(name: Seq<char>) -> spec_fn((Seq<char>, u32, Seq<char>)) -> bool {
    |loopback: (Seq<char>, u32, Seq<char>)| names_match(name, loopback.2)
}

/// The virtual camera of a camera: the one that the supervisor uses for it, or else the first one
/// whose name fits.
pub open spec fn pair_of(
    device: ReportModel,
    key: Seq<char>,
    loopbacks: Seq<(Seq<char>, u32, Seq<char>)>,
    managed: Seq<ManagedModel>,
) -> Option<Seq<char>> {
    match managed_loopback(managed, key, managed.len() as int) {
        Some(path) => Some(path),
        None => {
            let at = first_where(loopbacks, is_virtual_of(device.name));
            if at < loopbacks.len() {
                Some(loopbacks[at].0)
            } else {
                None
            }
        },
    }
}

/// The virtual cameras of cameras.
pub open spec fn pairs(
    physical: Seq<ReportModel>,
    keys: Seq<Seq<char>>,
    loopbacks: Seq<(Seq<char>, u32, Seq<char>)>,
    managed: Seq<ManagedModel>,
) -> Seq<Option<Seq<char>>> {
    Seq::new(physical.len(), |i: int| pair_of(physical[i], keys[i], loopbacks, managed))
}

/// The virtual camera of the camera at a path, from the first `n` cameras.
pub open spec fn virtual_at(
    physical: Seq<ReportModel>,
    pairs: Seq<Option<Seq<char>>>,
    path: Seq<char>,
    n: int,
) -> Option<Seq<char>>
    decreases n,
{
    if n <= 0 {
        None
    } else if physical[n - 1].path == path && pairs[n - 1] is Some {
        pairs[n - 1]
    } else {
        virtual_at(physical, pairs, path, n - 1)
    }
}

/// The camera that a virtual camera stands for, from the first `n` cameras.
pub open spec fn physical_at(
    physical: Seq<ReportModel>,
    pairs: Seq<Option<Seq<char>>>,
    path: Seq<char>,
    n: int,
) -> Option<Seq<char>>
    decreases n,
{
    if n <= 0 {
        None
    } else if pairs[n - 1] == Some(path) {
        Some(physical[n - 1].path)
    } else {
        physical_at(physical, pairs, path, n - 1)
    }
}

/// Cameras at a path, as a predicate.
pub open spec fn is_at(path: Seq<char>) -> spec_fn(ReportModel) -> bool {
    |report: ReportModel| report.path == path
}

/// The camera at a path needs a shim.
pub open spec fn needs_shim_at(physical: Seq<ReportModel>, path: Seq<char>) -> bool {
    let at = first_where(physical, is_at(path));
    at < physical.len() && physical[at].needs_shim
}

/// The tags of a camera.
pub open spec fn physical_tag_texts(device: ReportModel) -> Seq<Seq<char>> {
    if device.needs_shim {
        seq!["physical"@, "needs shim"@]
    } else if device.compatible {
        seq!["physical"@, "compatible"@]
    } else {
        seq!["physical"@]
    }
}

/// The tags of a virtual camera.
pub open spec fn virtual_tag_texts(cam_shim: bool, use_in_apps: bool) -> Seq<Seq<char>> {
    if use_in_apps {
        seq!["virtual"@, "use this"@]
    } else if cam_shim {
        seq!["virtual"@, "cam-shim"@]
    } else {
        seq!["virtual"@, "other"@]
    }
}

/// A camera as it is shown.
pub open spec fn physical_view(device: ReportModel, paired_with: Option<Seq<char>>) -> ViewModel {
    ViewModel {
        path: device.path,
        name: device.name,
        role: DeviceRole::Physical,
        tags: physical_tag_texts(device),
        paired_with,
        use_in_apps: false,
        needs_shim: device.needs_shim,
        compatible: device.compatible,
        standardized_name: Some(device.standardized_name),
        driver: Some(device.driver),
        bus: Some(device.bus),
        advertised_fps: device.advertised_fps,
        issues: device.issues,
    }
}

/// A virtual camera as it is shown.
pub open spec fn virtual_view(
    loopback: (Seq<char>, u32, Seq<char>),
    paired_with: Option<Seq<char>>,
    use_in_apps: bool,
) -> ViewModel {
    ViewModel {
        path: loopback.0,
        name: loopback.2,
        role: if is_own_name(loopback.2) {
            DeviceRole::VirtualCamShim
        } else {
            DeviceRole::VirtualOther
        },
        tags: virtual_tag_texts(is_own_name(loopback.2), use_in_apps),
        paired_with,
        use_in_apps,
        needs_shim: false,
        compatible: false,
        standardized_name: None,
        driver: None,
        bus: None,
        advertised_fps: Seq::empty(),
        issues: Seq::empty(),
    }
}

/// A virtual camera is the one to use: the supervisor runs, the virtual camera is one of this
/// program, and it stands for a camera that needs a shim.
pub open spec fn is_to_be_used(
    loopback: (Seq<char>, u32, Seq<char>),
    paired_with: Option<Seq<char>>,
    physical: Seq<ReportModel>,
    serve_running: bool,
) -> bool {
    serve_running && is_own_name(loopback.2) && (paired_with matches Some(path) && needs_shim_at(
        physical,
        path,
    ))
}

/// The cameras as they are shown, then the virtual ones.
pub open spec fn all_views(
    physical: Seq<ReportModel>,
    keys: Seq<Seq<char>>,
    loopbacks: Seq<(Seq<char>, u32, Seq<char>)>,
    serve_running: bool,
    managed: Seq<ManagedModel>,
) -> Seq<ViewModel> {
    let n = physical.len() as int;
    let pairs = pairs(physical, keys, loopbacks, managed);
    Seq::new(
        physical.len(),
        |i: int| physical_view(physical[i], virtual_at(physical, pairs, physical[i].path, n)),
    ) + Seq::new(
        loopbacks.len(),
        |i: int|
            {
                let paired_with = physical_at(physical, pairs, loopbacks[i].0, n);
                virtual_view(
                    loopbacks[i],
                    paired_with,
                    is_to_be_used(loopbacks[i], paired_with, physical, serve_running),
                )
            },
    )
}

/// Views are listed by path.
pub open spec fn view_order() -> spec_fn(ViewModel, ViewModel) -> bool {
    |a: ViewModel, b: ViewModel| text_before(a.path, b.path)
}

/// Devices that are to be used and stand for a camera, as a predicate.
pub open spec fn is_recommended() -> spec_fn(ViewModel) -> bool {
    |device: ViewModel| device.use_in_apps && device.paired_with is Some
}

/// The recommendations among devices.
pub open spec fn recommendations(devices: Seq<ViewModel>, serve_running: bool) -> Seq<
    (Seq<char>, Seq<char>, Seq<char>),
> {
    if serve_running {
        devices.filter(is_recommended()).map_values(
            |device: ViewModel| (device.path, device.name, device.paired_with->0),
        )
    } else {
        Seq::empty()
    }
}

fn physical_tags(device: &DeviceReport) -> (r: Vec<String>)
    ensures
        texts(r@) == physical_tag_texts(device@),
{
    let mut tags: Vec<String> = Vec::new();
    tags.push("physical".to_string());
    if device.needs_shim {
        tags.push("needs shim".to_string());
    } else if device.compatible {
        tags.push("compatible".to_string());
    }
    assert(texts(tags@) =~= physical_tag_texts(device@));
    tags
}

fn virtual_tags(cam_shim: bool, use_in_apps: bool) -> (r: Vec<String>)
    ensures
        texts(r@) == virtual_tag_texts(cam_shim, use_in_apps),
{
    let mut tags: Vec<String> = Vec::new();
    tags.push("virtual".to_string());
    if use_in_apps {
        tags.push("use this".to_string());
    } else if cam_shim {
        tags.push("cam-shim".to_string());
    } else {
        tags.push("other".to_string());
    }
    assert(texts(tags@) =~= virtual_tag_texts(cam_shim, use_in_apps));
    tags
}

fn physical_device_view(device: &DeviceReport, paired_with: Option<String>) -> (r: DeviceView)
    ensures
        r@ == physical_view(device@, opt_text(paired_with)),
{
    DeviceView {
        path: device.path.clone(),
        name: device.name.clone(),
        role: DeviceRole::Physical,
        tags: physical_tags(device),
        paired_with,
        use_in_apps: false,
        needs_shim: device.needs_shim,
        compatible: device.compatible,
        standardized_name: Some(device.standardized_name.clone()),
        driver: Some(device.driver.clone()),
        bus: Some(device.bus.clone()),
        advertised_fps: device.advertised_fps.clone(),
        issues: device.issues.clone(),
    }
}

fn virtual_device_view(
    loopback: &LoopbackDeviceInfo,
    paired_with: Option<String>,
    use_in_apps: bool,
) -> (r: DeviceView)
    ensures
        r@ == virtual_view(loopback@, opt_text(paired_with), use_in_apps),
{
    let cam_shim = is_cam_shim_loopback(&loopback.name);
    let role = if cam_shim {
        DeviceRole::VirtualCamShim
    } else {
        DeviceRole::VirtualOther
    };
    let view = DeviceView {
        path: loopback.path.clone(),
        name: loopback.name.clone(),
        role,
        tags: virtual_tags(cam_shim, use_in_apps),
        paired_with,
        use_in_apps,
        needs_shim: false,
        compatible: false,
        standardized_name: None,
        driver: None,
        bus: None,
        advertised_fps: Vec::new(),
        issues: Vec::new(),
    };
    assert(view@ =~= virtual_view(loopback@, opt_text(paired_with), use_in_apps));
    view
}

fn physical_needs_shim(physical: &Vec<DeviceReport>, path: &str) -> (r: bool)
    ensures
        r == needs_shim_at(report_models(physical@), path@),
{
    let ghost models = report_models(physical@);
    let mut i: usize = 0;
    while i < physical.len()
        invariant
            i <= physical@.len(),
            models == report_models(physical@),
            forall|j: int| 0 <= j < i ==> !is_at(path@)(#[trigger] models[j]),
        decreases physical@.len() - i,
    {
        assert(models[i as int] == physical@[i as int]@);
        if str_eq(&physical[i].path, path) {
            proof {
                lemma_first_where(models, is_at(path@), i as int);
            }
            return physical[i].needs_shim;
        }
        i += 1;
    }
    proof {
        lemma_first_where(models, is_at(path@), i as int);
    }
    false
}

/// The text that a table has for a name.
spec fn table_text(table: Map<Seq<char>, String>, key: Seq<char>) -> Option<Seq<char>> {
    if table.contains_key(key) {
        Some(table[key]@)
    } else {
        None
    }
}

fn get_text(table: &Table<String>, key: &str) -> (r: Option<String>)
    ensures
        opt_text(r) == table_text(table@, key@),
{
    match table.get(key) {
        Some(text) => Some(text.clone()),
        None => None,
    }
}

/// The managed cameras, or none.
pub open spec fn managed_or_none(managed: Option<&Vec<ManagedCameraSnapshot>>) -> Seq<
    ManagedModel,
> {
    match managed {
        Some(managed) => managed_models(managed@),
        None => Seq::empty(),
    }
}

fn managed_loopbacks(managed: Option<&Vec<ManagedCameraSnapshot>>) -> (r: Table<String>)
    ensures
        forall|key: Seq<char>| #[trigger]
            table_text(r@, key) == managed_loopback(
                managed_or_none(managed),
                key,
                managed_or_none(managed).len() as int,
            ),
{
    let mut table: Table<String> = Table::new();
    if let Some(cameras) = managed {
        let ghost models = managed_models(cameras@);
        let mut i: usize = 0;
        while i < cameras.len()
            invariant
                i <= cameras@.len(),
                models == managed_models(cameras@),
                forall|key: Seq<char>| #[trigger]
                    table_text(table@, key) == managed_loopback(models, key, i as int),
            decreases cameras@.len() - i,
        {
            assert(models[i as int] == cameras@[i as int]@);
            let ghost before = table@;
            if !cameras[i].quarantined {
                table.insert(cameras[i].serial.clone(), cameras[i].loopback_path.clone());
            }
            proof {
                assert forall|key: Seq<char>| #[trigger]
                    table_text(table@, key) == managed_loopback(models, key, i + 1) by {
                    assert(table_text(before, key) == managed_loopback(models, key, i as int));
                }
            }
            i += 1;
        }
    }
    table
}

fn find_virtual(name: &str, loopbacks: &Vec<LoopbackDeviceInfo>) -> (r: Option<String>)
    ensures
        ({
            let views = device_views(loopbacks@);
            let at = first_where(views, is_virtual_of(name@));
            opt_text(r) == if at < views.len() {
                Some(views[at].0)
            } else {
                None
            }
        }),
{
    let ghost views = device_views(loopbacks@);
    let mut i: usize = 0;
    while i < loopbacks.len()
        invariant
            i <= loopbacks@.len(),
            views == device_views(loopbacks@),
            forall|j: int| 0 <= j < i ==> !is_virtual_of(name@)(#[trigger] views[j]),
        decreases loopbacks@.len() - i,
    {
        assert(views[i as int] == loopbacks@[i as int]@);
        if virtual_matches_physical(name, &loopbacks[i].name) {
            proof {
                lemma_first_where(views, is_virtual_of(name@), i as int);
            }
            return Some(loopbacks[i].path.clone());
        }
        i += 1;
    }
    proof {
        lemma_first_where(views, is_virtual_of(name@), i as int);
    }
    None
}

fn sort_views(devices: &Vec<DeviceView>) -> (r: Vec<DeviceView>)
    ensures
        sorted_by(view_models(devices@), view_models(r@), view_order()),
{
    let mut keys: Vec<String> = Vec::new();
    let mut i: usize = 0;
    while i < devices.len()
        invariant
            i <= devices@.len(),
            keys@.len() == i,
            forall|k: int| 0 <= k < i ==> (#[trigger] keys@[k])@ == devices@[k].path@,
        decreases devices@.len() - i,
    {
        keys.push(devices[i].path.clone());
        i += 1;
    }
    let order = stable_order(&keys);
    proof {
        lemma_order_of_items(keys@, view_models(devices@), view_order(), as_positions(order@));
        lemma_positions_in_range(view_models(devices@), view_order(), order@);
    }
    let mut out: Vec<DeviceView> = Vec::new();
    let ghost all = picked(view_models(devices@), as_positions(order@));
    let mut k: usize = 0;
    while k < order.len()
        invariant
            k <= order@.len(),
            forall|i: int| 0 <= i < order@.len() ==> #[trigger] order@[i] < devices@.len(),
            all == picked(view_models(devices@), as_positions(order@)),
            view_models(out@) == all.take(k as int),
        decreases order@.len() - k,
    {
        let ghost before = out@;
        let device = devices[order[k]].clone();
        out.push(device);
        assert(view_models(out@) =~= view_models(before).push(device@));
        assert(all.take(k + 1) =~= all.take(k as int).push(device@));
        k += 1;
    }
    assert(all.take(k as int) =~= all);
    out
}

fn recommend(devices: &Vec<DeviceView>, serve_running: bool) -> (r: Vec<RecommendedDevice>)
    ensures
        recommended_views(r@) == recommendations(view_models(devices@), serve_running),
{
    let mut out: Vec<RecommendedDevice> = Vec::new();
    let ghost models = view_models(devices@);
    let ghost p = is_recommended();
    let ghost f = |device: ViewModel| (device.path, device.name, device.paired_with->0);
    assert(recommended_views(out@) =~= Seq::<(Seq<char>, Seq<char>, Seq<char>)>::empty());
    if !serve_running {
        return out;
    }
    let mut i: usize = 0;
    proof {
        crate::split::lemma_filter_nothing(models, p);
        assert(models.take(0).filter(p).map_values(f) =~= recommended_views(out@));
    }
    while i < devices.len()
        invariant
            i <= devices@.len(),
            models == view_models(devices@),
            p == is_recommended(),
            f == (|device: ViewModel| (device.path, device.name, device.paired_with->0)),
            recommended_views(out@) == models.take(i as int).filter(p).map_values(f),
        decreases devices@.len() - i,
    {
        let ghost before = out@;
        proof {
            assert(models[i as int] == devices@[i as int]@);
            crate::split::lemma_filter_step(models, p, i as int);
            crate::split::lemma_map_push(models.take(i as int).filter(p), f, models[i as int]);
        }
        if devices[i].use_in_apps {
            if let Some(path) = &devices[i].paired_with {
                let device = RecommendedDevice {
                    path: devices[i].path.clone(),
                    name: devices[i].name.clone(),
                    for_physical: path.clone(),
                };
                out.push(device);
                assert(recommended_views(out@) =~= recommended_views(before).push(device@));
            }
        }
        i += 1;
    }
    proof {
        crate::split::lemma_filter_nothing(models, p);
    }
    out
}

/// The report shows all devices by path, with the recommendations among them.
pub open spec fn is_scan_report(
    report: ScanReport,
    physical: Seq<ReportModel>,
    keys: Seq<Seq<char>>,
    loopbacks: Seq<(Seq<char>, u32, Seq<char>)>,
    serve_running: bool,
    managed: Seq<ManagedModel>,
) -> bool {
    &&& report.serve_running == serve_running
    &&& sorted_by(
        all_views(physical, keys, loopbacks, serve_running, managed),
        view_models(report.devices@),
        view_order(),
    )
    &&& recommended_views(report.recommended_devices@) == recommendations(
        view_models(report.devices@),
        serve_running,
    )
}

/// Shows all devices by path, paired with each other. `levels` holds, for each camera, the
/// directories above its node.
pub fn build_device_views(
    physical: &Vec<DeviceReport>,
    levels: &Vec<Vec<DeviceLevel>>,
    loopbacks: &Vec<LoopbackDeviceInfo>,
    serve_running: bool,
    managed: Option<&Vec<ManagedCameraSnapshot>>,
) -> (r: ScanReport)
    requires
        levels@.len() == physical@.len(),
    ensures
        is_scan_report(
            r,
            report_models(physical@),
            node_keys(report_models(physical@), levels@),
            device_views(loopbacks@),
            serve_running,
            managed_or_none(managed),
        ),
{
    let ghost models = report_models(physical@);
    let ghost keys = node_keys(models, levels@);
    let ghost views = device_views(loopbacks@);
    let ghost cameras = managed_or_none(managed);
    let ghost pairing = pairs(models, keys, views, cameras);
    let ghost n = models.len() as int;
    let serial_to_loopback = managed_loopbacks(managed);
    let mut physical_to_virtual: Table<String> = Table::new();
    let mut virtual_to_physical: Table<String> = Table::new();
    let mut i: usize = 0;
    while i < physical.len()
        invariant
            i <= physical@.len(),
            levels@.len() == physical@.len(),
            models == report_models(physical@),
            keys == node_keys(models, levels@),
            views == device_views(loopbacks@),
            pairing == pairs(models, keys, views, cameras),
            forall|key: Seq<char>| #[trigger]
                table_text(serial_to_loopback@, key) == managed_loopback(
                    cameras,
                    key,
                    cameras.len() as int,
                ),
            forall|path: Seq<char>| #[trigger]
                table_text(physical_to_virtual@, path) == virtual_at(
                    models,
                    pairing,
                    path,
                    i as int,
                ),
            forall|path: Seq<char>| #[trigger]
                table_text(virtual_to_physical@, path) == physical_at(
                    models,
                    pairing,
                    path,
                    i as int,
                ),
        decreases physical@.len() - i,
    {
        let device = &physical[i];
        let ghost forward = physical_to_virtual@;
        let ghost backward = virtual_to_physical@;
        assert(models[i as int] == physical@[i as int]@);
        let key = physical_camera_key_with_name(&levels[i], &device.path, &device.name);
        assert(key@ == keys[i as int]);
        let found = match get_text(&serial_to_loopback, &key) {
            Some(path) => Some(path),
            None => find_virtual(&device.name, loopbacks),
        };
        assert(opt_text(found) == pairing[i as int]);
        if let Some(path) = found {
            physical_to_virtual.insert(device.path.clone(), path.clone());
            virtual_to_physical.insert(path, device.path.clone());
        }
        proof {
            assert forall|path: Seq<char>| #[trigger]
                table_text(physical_to_virtual@, path) == virtual_at(
                    models,
                    pairing,
                    path,
                    i + 1,
                ) by {
                assert(table_text(forward, path) == virtual_at(models, pairing, path, i as int));
            }
            assert forall|path: Seq<char>| #[trigger]
                table_text(virtual_to_physical@, path) == physical_at(
                    models,
                    pairing,
                    path,
                    i + 1,
                ) by {
                assert(table_text(backward, path) == physical_at(models, pairing, path, i as int));
            }
        }
        i += 1;
    }
    let mut devices: Vec<DeviceView> = Vec::new();
    let ghost shown = all_views(models, keys, views, serve_running, cameras);
    let mut j: usize = 0;
    assert(view_models(devices@) =~= shown.take(0));
    while j < physical.len()
        invariant
            j <= physical@.len(),
            models == report_models(physical@),
            n == models.len(),
            pairing == pairs(models, keys, views, cameras),
            shown == all_views(models, keys, views, serve_running, cameras),
            forall|path: Seq<char>| #[trigger]
                table_text(physical_to_virtual@, path) == virtual_at(models, pairing, path, n),
            view_models(devices@) == shown.take(j as int),
        decreases physical@.len() - j,
    {
        let ghost before = devices@;
        let device = &physical[j];
        assert(models[j as int] == physical@[j as int]@);
        let paired_with = get_text(&physical_to_virtual, &device.path);
        let view = physical_device_view(device, paired_with);
        assert(view@ == shown[j as int]);
        devices.push(view);
        assert(view_models(devices@) =~= view_models(before).push(view@));
        assert(shown.take(j + 1) =~= shown.take(j as int).push(view@));
        j += 1;
    }
    let mut k: usize = 0;
    while k < loopbacks.len()
        invariant
            k <= loopbacks@.len(),
            models == report_models(physical@),
            n == models.len(),
            views == device_views(loopbacks@),
            pairing == pairs(models, keys, views, cameras),
            shown == all_views(models, keys, views, serve_running, cameras),
            forall|path: Seq<char>| #[trigger]
                table_text(virtual_to_physical@, path) == physical_at(models, pairing, path, n),
            view_models(devices@) == shown.take(n + k),
        decreases loopbacks@.len() - k,
    {
        let ghost before = devices@;
        let loopback = &loopbacks[k];
        assert(views[k as int] == loopbacks@[k as int]@);
        let paired_with = get_text(&virtual_to_physical, &loopback.path);
        let used = serve_running && is_cam_shim_loopback(&loopback.name) && match &paired_with {
            Some(path) => physical_needs_shim(physical, path),
            None => false,
        };
        let view = virtual_device_view(loopback, paired_with, used);
        assert(view@ == shown[n + k]);
        devices.push(view);
        assert(view_models(devices@) =~= view_models(before).push(view@));
        assert(shown.take(n + k + 1) =~= shown.take(n + k).push(view@));
        k += 1;
    }
    assert(shown.take(n + k) =~= shown);
    let sorted = sort_views(&devices);
    let recommended_devices = recommend(&sorted, serve_running);
    ScanReport { serve_running, devices: sorted, recommended_devices }
}

/// The cameras that the supervisor manages, by its state.
pub open spec fn state_managed(state: Option<SupervisorStateSnapshot>) -> Seq<ManagedModel> {
    match state {
        Some(state) => managed_models(state.managed@),
        None => Seq::empty(),
    }
}

/// Shows all devices, from a scan of the cameras, the loopback devices of the system and the state
/// of the supervisor.
pub fn collect_scan_report(
    physical: &Vec<DeviceReport>,
    levels: &Vec<Vec<DeviceLevel>>,
    loopbacks: &Vec<LoopbackDeviceInfo>,
    serve_running: bool,
    supervisor: &Option<SupervisorStateSnapshot>,
) -> (r: ScanReport)
    requires
        levels@.len() == physical@.len(),
    ensures
        is_scan_report(
            r,
            report_models(physical@),
            node_keys(report_models(physical@), levels@),
            device_views(loopbacks@),
            serve_running,
            state_managed(*supervisor),
        ),
{
    match supervisor {
        Some(state) => build_device_views(
            physical,
            levels,
            loopbacks,
            serve_running,
            Some(&state.managed),
        ),
        None => build_device_views(physical, levels, loopbacks, serve_running, None),
    }
}

/// A loopback device of a snapshot, with the number in its path.
pub open spec fn snapshot_device(loopback: LoopbackModel) -> (Seq<char>, u32, Seq<char>) {
    (
        loopback.path,
        match number_in_path(loopback.path) {
            Some(n) => n as u32,
            None => 0,
        },
        loopback.name,
    )
}

/// The loopback devices of a snapshot.
pub open spec fn snapshot_devices(loopbacks: Seq<LoopbackModel>) -> Seq<
    (Seq<char>, u32, Seq<char>),
> {
    loopbacks.map_values(|loopback: LoopbackModel| snapshot_device(loopback))
}

/// Shows all devices of a snapshot.
pub fn device_views_from_snapshot(snapshot: &RuntimeSnapshot, levels: &Vec<Vec<DeviceLevel>>) -> (r:
    ScanReport)
    requires
        levels@.len() == snapshot.devices@.len(),
    ensures
        is_scan_report(
            r,
            report_models(snapshot.devices@),
            node_keys(report_models(snapshot.devices@), levels@),
            snapshot_devices(loopback_models(snapshot.loopbacks@)),
            snapshot.serve_running,
            state_managed(snapshot.supervisor_state),
        ),
{
    let ghost all = snapshot_devices(loopback_models(snapshot.loopbacks@));
    let mut loopbacks: Vec<LoopbackDeviceInfo> = Vec::new();
    let mut i: usize = 0;
    assert(device_views(loopbacks@) =~= all.take(0));
    while i < snapshot.loopbacks.len()
        invariant
            i <= snapshot.loopbacks@.len(),
            all == snapshot_devices(loopback_models(snapshot.loopbacks@)),
            device_views(loopbacks@) == all.take(i as int),
        decreases snapshot.loopbacks@.len() - i,
    {
        let ghost before = loopbacks@;
        let loopback = &snapshot.loopbacks[i];
        let index: u32 = match video_index_from_path(&loopback.path) {
            Some(n) => n,
            None => 0,
        };
        let device = LoopbackDeviceInfo {
            path: loopback.path.clone(),
            index,
            name: loopback.name.clone(),
        };
        assert(device@ == all[i as int]);
        loopbacks.push(device);
        assert(device_views(loopbacks@) =~= device_views(before).push(device@));
        assert(all.take(i + 1) =~= all.take(i as int).push(device@));
        i += 1;
    }
    assert(all.take(i as int) =~= all);
    collect_scan_report(
        &snapshot.devices,
        levels,
        &loopbacks,
        snapshot.serve_running,
        &snapshot.supervisor_state,
    )
}

/// The name of a role.
pub open spec fn role_text(role: DeviceRole) -> Seq<char> {
    match role {
        DeviceRole::Physical => "physical"@,
        DeviceRole::VirtualCamShim => "virtual_cam_shim"@,
        DeviceRole::VirtualOther => "virtual_other"@,
    }
}

/// The name of a role.
pub fn role_label(role: DeviceRole) -> (r: &'static str)
    ensures
        r@ == role_text(role),
{
    match role {
        DeviceRole::Physical => "physical",
        DeviceRole::VirtualCamShim => "virtual_cam_shim",
        DeviceRole::VirtualOther => "virtual_other",
    }
}

/// A device in one line.
pub open spec fn device_line(device: ViewModel) -> Seq<char> {
    device.path + "  "@ + device.name + "  ["@ + joined(device.tags, ", "@) + "]"@
}

/// A device in one line.
pub fn format_device_line(device: &DeviceView) -> (r: String)
    ensures
        r@ == device_line(device@),
{
    let tags = join(&device.tags, ", ");
    concat6(&device.path, "  ", &device.name, "  [", &tags, "]")
}

/// A device is marked for use only while the supervisor runs, and only where it is a virtual camera
/// of this program that stands for a camera that needs a shim. So a physical camera never is.
pub proof fn lemma_use_in_apps(
    report: ScanReport,
    physical: Seq<ReportModel>,
    keys: Seq<Seq<char>>,
    loopbacks: Seq<(Seq<char>, u32, Seq<char>)>,
    serve_running: bool,
    managed: Seq<ManagedModel>,
    at: int,
)
    requires
        is_scan_report(report, physical, keys, loopbacks, serve_running, managed),
        0 <= at < report.devices@.len(),
        report.devices@[at].use_in_apps,
    ensures
        serve_running,
        report.devices@[at].role == DeviceRole::VirtualCamShim,
        is_own_name(report.devices@[at].name@),
        opt_text(report.devices@[at].paired_with) matches Some(path) && needs_shim_at(
            physical,
            path,
        ),
{
    let shown = all_views(physical, keys, loopbacks, serve_running, managed);
    let models = view_models(report.devices@);
    let i = crate::order::lemma_sorted_from(shown, models, view_order(), at);
    assert(models[at] == report.devices@[at]@);
    if i < physical.len() {
        assert(!shown[i].use_in_apps);
    }
}

/// While the supervisor runs, every virtual camera of this program that is shown with a partner that
/// needs a shim is marked for use and recommended for that partner, whichever of the cameras the
/// partner is.
pub proof fn lemma_stand_ins_are_recommended(
    report: ScanReport,
    physical: Seq<ReportModel>,
    keys: Seq<Seq<char>>,
    loopbacks: Seq<(Seq<char>, u32, Seq<char>)>,
    serve_running: bool,
    managed: Seq<ManagedModel>,
    at: int,
    i: int,
)
    requires
        is_scan_report(report, physical, keys, loopbacks, serve_running, managed),
        serve_running,
        have_own_paths(physical),
        0 <= at < report.devices@.len(),
        report.devices@[at].role == DeviceRole::VirtualCamShim,
        0 <= i < physical.len(),
        physical[i].needs_shim,
        opt_text(report.devices@[at].paired_with) == Some(physical[i].path),
    ensures
        report.devices@[at].use_in_apps,
        report.devices@[at].tags@.len() == 2,
        report.devices@[at].tags@[0]@ == "virtual"@,
        report.devices@[at].tags@[1]@ == "use this"@,
        exists|k: int|
            {
                &&& 0 <= k < report.recommended_devices@.len()
                &&& (#[trigger] report.recommended_devices@[k]).path@ == report.devices@[at].path@
                &&& report.recommended_devices@[k].name@ == report.devices@[at].name@
                &&& report.recommended_devices@[k].for_physical@ == physical[i].path
            },
{
    broadcast use vstd::seq_lib::group_filter_ensures;

    let n = physical.len() as int;
    let shown = all_views(physical, keys, loopbacks, serve_running, managed);
    let models = view_models(report.devices@);
    let from = crate::order::lemma_sorted_from(shown, models, view_order(), at);
    assert(models[at] == report.devices@[at]@);
    if from < n {
        assert(shown[from].role == DeviceRole::Physical);
    }
    lemma_first_where(physical, is_at(physical[i].path), i);
    assert(models[at].use_in_apps);
    let tags = report.devices@[at].tags@;
    assert(texts(tags) == seq!["virtual"@, "use this"@]);
    assert(texts(tags).len() == tags.len());
    assert(texts(tags)[0] == tags[0]@ && texts(tags)[1] == tags[1]@);
    let listed = models.filter(is_recommended());
    assert(is_recommended()(models[at]));
    assert(listed.contains(models[at]));
    let k = choose|k: int| 0 <= k < listed.len() && listed[k] == models[at];
    let views = recommended_views(report.recommended_devices@);
    assert(views.len() == report.recommended_devices@.len());
    assert(views == recommendations(models, serve_running));
    assert(views[k] == report.recommended_devices@[k]@);
}

/// Every device of the report is one of the cameras or one of the loopback devices, with its path
/// and name. A loopback device is one of this program exactly when its name is one that this program
/// gives.
pub proof fn lemma_shown_devices(
    report: ScanReport,
    physical: Seq<ReportModel>,
    keys: Seq<Seq<char>>,
    loopbacks: Seq<(Seq<char>, u32, Seq<char>)>,
    serve_running: bool,
    managed: Seq<ManagedModel>,
    at: int,
)
    requires
        is_scan_report(report, physical, keys, loopbacks, serve_running, managed),
        0 <= at < report.devices@.len(),
    ensures
        ({
            let device = report.devices@[at];
            if device.role == DeviceRole::Physical {
                exists|i: int|
                    {
                        &&& 0 <= i < physical.len()
                        &&& (#[trigger] physical[i]).path == device.path@
                        &&& physical[i].name == device.name@
                        &&& physical[i].needs_shim == device.needs_shim
                        &&& physical[i].compatible == device.compatible
                        &&& physical[i].issues == texts(device.issues@)
                        &&& Some(physical[i].standardized_name) == opt_text(
                            device.standardized_name,
                        )
                    }
            } else {
                &&& exists|i: int|
                    0 <= i < loopbacks.len() && (#[trigger] loopbacks[i]).0 == device.path@
                        && loopbacks[i].2 == device.name@
                &&& device.role == DeviceRole::VirtualCamShim <==> is_own_name(device.name@)
                &&& !device.needs_shim
            }
        }),
{
    let n = physical.len() as int;
    let shown = all_views(physical, keys, loopbacks, serve_running, managed);
    let models = view_models(report.devices@);
    let from = crate::order::lemma_sorted_from(shown, models, view_order(), at);
    assert(models[at] == report.devices@[at]@);
    if from < n {
        assert(shown[from].role == DeviceRole::Physical);
        assert(physical[from].path == report.devices@[at].path@);
    } else {
        assert(shown[from].role != DeviceRole::Physical);
        assert(loopbacks[from - n].0 == report.devices@[at].path@);
    }
}

/// Every recommendation is a device of the report that is marked for use, and names the camera that
/// it stands for. Without a supervisor there is none.
pub proof fn lemma_recommendations(
    report: ScanReport,
    physical: Seq<ReportModel>,
    keys: Seq<Seq<char>>,
    loopbacks: Seq<(Seq<char>, u32, Seq<char>)>,
    serve_running: bool,
    managed: Seq<ManagedModel>,
    at: int,
)
    requires
        is_scan_report(report, physical, keys, loopbacks, serve_running, managed),
        0 <= at < report.recommended_devices@.len(),
    ensures
        serve_running,
        exists|k: int|
            {
                &&& 0 <= k < report.devices@.len()
                &&& (#[trigger] report.devices@[k]).use_in_apps
                &&& report.devices@[k].path@ == report.recommended_devices@[at].path@
                &&& report.devices@[k].name@ == report.recommended_devices@[at].name@
                &&& opt_text(report.devices@[k].paired_with) == Some(
                    report.recommended_devices@[at].for_physical@,
                )
            },
        needs_shim_at(physical, report.recommended_devices@[at].for_physical@),
{
    broadcast use vstd::seq_lib::group_filter_ensures;

    let models = view_models(report.devices@);
    let listed = models.filter(is_recommended());
    let views = recommended_views(report.recommended_devices@);
    assert(views[at] == report.recommended_devices@[at]@);
    assert(views.len() == report.recommended_devices@.len());
    assert(views == recommendations(models, serve_running));
    assert(serve_running);
    assert(views.len() == listed.len());
    let device = listed[at];
    assert(listed.contains(device));
    assert(is_recommended()(device));
    models.lemma_filter_contains_rev(is_recommended(), device);
    let k = choose|k: int| 0 <= k < models.len() && models[k] == device;
    assert(models[k] == report.devices@[k]@);
    lemma_use_in_apps(report, physical, keys, loopbacks, serve_running, managed, k);
}

/// The report shows every camera and every loopback device, and nothing else.
pub proof fn lemma_report_shows_all(
    report: ScanReport,
    physical: Seq<ReportModel>,
    keys: Seq<Seq<char>>,
    loopbacks: Seq<(Seq<char>, u32, Seq<char>)>,
    serve_running: bool,
    managed: Seq<ManagedModel>,
)
    requires
        is_scan_report(report, physical, keys, loopbacks, serve_running, managed),
    ensures
        report.devices@.len() == physical.len() + loopbacks.len(),
        forall|i: int|
            0 <= i < physical.len() ==> shows(report, (#[trigger] physical[i]).path, physical[i].name),
        forall|i: int|
            0 <= i < loopbacks.len() ==> shows(
                report,
                (#[trigger] loopbacks[i]).0,
                loopbacks[i].2,
            ),
{
    let shown = all_views(physical, keys, loopbacks, serve_running, managed);
    let models = view_models(report.devices@);
    assert(models.len() == shown.len()) by {
        let order = choose|order: Seq<int>| #[trigger]
            crate::order::is_stable_order(shown, view_order(), order) && models == picked(
                shown,
                order,
            );
        assert(models.len() == order.len());
    }
    assert forall|a: ViewModel| !#[trigger] view_order()(a, a) by {
        crate::order::lemma_text_before_total(a.path, a.path);
    }
    assert forall|i: int| 0 <= i < physical.len() implies shows(
        report,
        (#[trigger] physical[i]).path,
        physical[i].name,
    ) by {
        let k = crate::order::lemma_sorted_keeps(shown, models, view_order(), i);
        assert(models[k] == report.devices@[k]@);
        assert(shown[i].path == physical[i].path);
    }
    assert forall|i: int| 0 <= i < loopbacks.len() implies shows(
        report,
        (#[trigger] loopbacks[i]).0,
        loopbacks[i].2,
    ) by {
        let at = physical.len() + i;
        let k = crate::order::lemma_sorted_keeps(shown, models, view_order(), at);
        assert(models[k] == report.devices@[k]@);
        assert(shown[at].path == loopbacks[i].0);
    }
}

/// One of the devices of the report has the given path and name.
pub open spec fn shows(report: ScanReport, path: Seq<char>, name: Seq<char>) -> bool {
    exists|k: int|
        0 <= k < report.devices@.len() && (#[trigger] report.devices@[k]).path@ == path
            && report.devices@[k].name@ == name
}

/// Pairing goes both ways: where a camera has a virtual camera that no other camera has, and the
/// cameras have different paths, each is shown as the other's partner.
pub proof fn lemma_pairing_is_mutual(
    physical: Seq<ReportModel>,
    pairing: Seq<Option<Seq<char>>>,
    at: int,
)
    requires
        pairing.len() == physical.len(),
        0 <= at < physical.len(),
        pairing[at] is Some,
        forall|i: int|
            0 <= i < physical.len() && i != at ==> #[trigger] pairing[i] != pairing[at],
        forall|i: int|
            0 <= i < physical.len() && i != at ==> (#[trigger] physical[i]).path
                != physical[at].path,
    ensures
        virtual_at(physical, pairing, physical[at].path, physical.len() as int) == pairing[at],
        physical_at(physical, pairing, pairing[at]->0, physical.len() as int) == Some(
            physical[at].path,
        ),
{
    lemma_pairing_up_to(physical, pairing, at, physical.len() as int);
}

/// Where a virtual camera is shown with a camera as its partner, that camera is shown with the
/// virtual camera, whatever other cameras are paired with it. The cameras have different paths.
pub proof fn lemma_partner_is_paired_back(
    physical: Seq<ReportModel>,
    pairing: Seq<Option<Seq<char>>>,
    path: Seq<char>,
    n: int,
)
    requires
        pairing.len() == physical.len(),
        0 <= n <= physical.len(),
        have_own_paths(physical),
    ensures
        physical_at(physical, pairing, path, n) matches Some(partner) ==> {
            &&& virtual_at(physical, pairing, partner, n) == Some(path)
            &&& is_path_of_one(physical, partner, n)
        },
    decreases n,
{
    if n > 0 && pairing[n - 1] != Some(path) {
        lemma_partner_is_paired_back(physical, pairing, path, n - 1);
        if let Some(partner) = physical_at(physical, pairing, path, n) {
            let i = choose|i: int| 0 <= i < n - 1 && (#[trigger] physical[i]).path == partner;
            assert(physical[n - 1].path != physical[i].path);
        }
    }
}

/// No two cameras have the same path.
pub open spec fn have_own_paths(physical: Seq<ReportModel>) -> bool {
    forall|i: int, j: int|
        0 <= i < j < physical.len() ==> (#[trigger] physical[i]).path != (
        #[trigger] physical[j]).path
}

/// One of the first `n` cameras has the given path.
pub open spec fn is_path_of_one(physical: Seq<ReportModel>, path: Seq<char>, n: int) -> bool {
    exists|i: int| 0 <= i < n && (#[trigger] physical[i]).path == path
}

/// A virtual camera that the report shows with a partner is the partner of the physical camera that
/// the report shows at that path.
pub proof fn lemma_shown_partner_is_paired_back(
    report: ScanReport,
    physical: Seq<ReportModel>,
    keys: Seq<Seq<char>>,
    loopbacks: Seq<(Seq<char>, u32, Seq<char>)>,
    serve_running: bool,
    managed: Seq<ManagedModel>,
    at: int,
)
    requires
        is_scan_report(report, physical, keys, loopbacks, serve_running, managed),
        have_own_paths(physical),
        0 <= at < report.devices@.len(),
        report.devices@[at].role != DeviceRole::Physical,
        report.devices@[at].paired_with is Some,
    ensures
        exists|k: int|
            {
                &&& 0 <= k < report.devices@.len()
                &&& (#[trigger] report.devices@[k]).role == DeviceRole::Physical
                &&& Some(report.devices@[k].path@) == opt_text(report.devices@[at].paired_with)
                &&& opt_text(report.devices@[k].paired_with) == Some(report.devices@[at].path@)
            },
{
    let n = physical.len() as int;
    let pairing = pairs(physical, keys, loopbacks, managed);
    let shown = all_views(physical, keys, loopbacks, serve_running, managed);
    let models = view_models(report.devices@);
    let from = crate::order::lemma_sorted_from(shown, models, view_order(), at);
    assert(models[at] == report.devices@[at]@);
    if from < n {
        assert(shown[from].role == DeviceRole::Physical);
    }
    let path = report.devices@[at].path@;
    let partner = opt_text(report.devices@[at].paired_with)->0;
    assert(physical_at(physical, pairing, path, n) == Some(partner));
    lemma_partner_is_paired_back(physical, pairing, path, n);
    let i = choose|i: int| 0 <= i < n && (#[trigger] physical[i]).path == partner;
    assert forall|a: ViewModel| !#[trigger] view_order()(a, a) by {
        crate::order::lemma_text_before_total(a.path, a.path);
    }
    let k = crate::order::lemma_sorted_keeps(shown, models, view_order(), i);
    assert(models[k] == report.devices@[k]@);
    assert(shown[i] == physical_view(physical[i], virtual_at(physical, pairing, partner, n)));
}

proof fn lemma_pairing_up_to(
    physical: Seq<ReportModel>,
    pairing: Seq<Option<Seq<char>>>,
    at: int,
    n: int,
)
    requires
        pairing.len() == physical.len(),
        0 <= at < n <= physical.len(),
        pairing[at] is Some,
        forall|i: int|
            0 <= i < physical.len() && i != at ==> #[trigger] pairing[i] != pairing[at],
        forall|i: int|
            0 <= i < physical.len() && i != at ==> (#[trigger] physical[i]).path
                != physical[at].path,
    ensures
        virtual_at(physical, pairing, physical[at].path, n) == pairing[at],
        physical_at(physical, pairing, pairing[at]->0, n) == Some(physical[at].path),
    decreases n,
{
    if n - 1 != at {
        assert(pairing[n - 1] != pairing[at]);
        assert(physical[n - 1].path != physical[at].path);
        lemma_pairing_up_to(physical, pairing, at, n - 1);
    }
}

/// A device in lines: what it is, its partner, and for a camera that needs a shim the name of the
/// virtual camera to look for.
pub open spec fn device_block(device: ViewModel) -> Seq<Seq<char>> {
    seq![device_line(device)] + match device.paired_with {
        Some(path) => seq!["  paired with: "@ + path],
        None => Seq::empty(),
    } + match device.standardized_name {
        Some(name) => line_if(device.needs_shim, "  expected virtual name: "@ + name),
        None => Seq::empty(),
    } + seq![""@]
}

/// The first `n` devices in lines.
pub open spec fn device_blocks(devices: Seq<ViewModel>, n: int) -> Seq<Seq<char>>
    decreases n,
{
    if n <= 0 {
        Seq::empty()
    } else {
        device_blocks(devices, n - 1) + device_block(devices[n - 1])
    }
}

fn device_block_lines(device: &DeviceView) -> (r: Vec<String>)
    ensures
        texts(r@) == device_block(device@),
{
    let mut out: Vec<String> = Vec::new();
    add_line(&mut out, &format_device_line(device));
    if let Some(path) = &device.paired_with {
        add_line(&mut out, &concat2("  paired with: ", path));
    }
    if let Some(name) = &device.standardized_name {
        add_line_if(&mut out, device.needs_shim, &concat2("  expected virtual name: ", name));
    }
    add_line(&mut out, "");
    assert(texts(out@) =~= device_block(device@));
    out
}

/// Devices in lines.
pub fn device_lines(devices: &Vec<DeviceView>) -> (r: Vec<String>)
    ensures
        texts(r@) == device_blocks(view_models(devices@), devices@.len() as int),
{
    let ghost models = view_models(devices@);
    let mut out: Vec<String> = Vec::new();
    let mut i: usize = 0;
    while i < devices.len()
        invariant
            i <= devices@.len(),
            models == view_models(devices@),
            texts(out@) == device_blocks(models, i as int),
        decreases devices@.len() - i,
    {
        assert(models[i as int] == devices@[i as int]@);
        add_lines(&mut out, device_block_lines(&devices[i]));
        i += 1;
    }
    out
}

/// A scan in lines: the devices, or what to do where there is none.
pub open spec fn scan_text(devices: Seq<ViewModel>, ghosts: usize) -> Seq<Seq<char>> {
    if devices.len() > 0 {
        device_blocks(devices, devices.len() as int)
    } else if ghosts > 0 {
        seq![
            "No V4L2 capture devices found."@,
            decimal(ghosts as nat)
                + " stale /dev/video* node(s) have no kernel device (ghost nodes)."@,
            "Repair with: sudo cam-shim restore"@,
        ]
    } else {
        seq![
            "No V4L2 capture devices found."@,
            "If your webcam is plugged in, try: unplug → wait 5s → replug"@,
            "Then run: sudo cam-shim restore --loopback"@,
        ]
    }
}

/// A scan in lines, given the number of left-over device files.
pub fn scan_lines(report: &ScanReport, ghosts: usize) -> (r: Vec<String>)
    ensures
        texts(r@) == scan_text(view_models(report.devices@), ghosts),
{
    if report.devices.len() > 0 {
        return device_lines(&report.devices);
    }
    let mut out: Vec<String> = Vec::new();
    add_line(&mut out, "No V4L2 capture devices found.");
    if ghosts > 0 {
        add_line(
            &mut out,
            &concat2(
                &decimal_of(ghosts as u64),
                " stale /dev/video* node(s) have no kernel device (ghost nodes).",
            ),
        );
        add_line(&mut out, "Repair with: sudo cam-shim restore");
    } else {
        add_line(&mut out, "If your webcam is plugged in, try: unplug → wait 5s → replug");
        add_line(&mut out, "Then run: sudo cam-shim restore --loopback");
    }
    assert(texts(out@) =~= scan_text(view_models(report.devices@), ghosts));
    out
}

/// A camera that the supervisor has given a loopback device is shown with it, whatever the names are,
/// unless the camera is in quarantine.
pub proof fn lemma_managed_camera_is_paired(
    report: ScanReport,
    physical: Seq<ReportModel>,
    keys: Seq<Seq<char>>,
    loopbacks: Seq<(Seq<char>, u32, Seq<char>)>,
    serve_running: bool,
    managed: Seq<ManagedModel>,
    i: int,
    m: int,
)
    requires
        is_scan_report(report, physical, keys, loopbacks, serve_running, managed),
        have_own_paths(physical),
        0 <= i < physical.len(),
        0 <= m < managed.len(),
        managed[m].serial == keys[i],
        !managed[m].quarantined,
        forall|k: int|
            0 <= k < managed.len() && k != m ==> (#[trigger] managed[k]).serial != keys[i],
    ensures
        exists|k: int|
            {
                &&& 0 <= k < report.devices@.len()
                &&& (#[trigger] report.devices@[k]).role == DeviceRole::Physical
                &&& report.devices@[k].path@ == physical[i].path
                &&& opt_text(report.devices@[k].paired_with) == Some(managed[m].loopback_path)
            },
{
    lemma_only_managed(managed, keys[i], m, managed.len() as int);
    lemma_shown_with_pair(report, physical, keys, loopbacks, serve_running, managed, i);
}

/// A camera that the supervisor does not manage is shown with the first virtual camera of this
/// program, where that has the label that is made for the camera, cut for the kernel or not.
pub proof fn lemma_labelled_camera_is_paired(
    report: ScanReport,
    physical: Seq<ReportModel>,
    keys: Seq<Seq<char>>,
    loopbacks: Seq<(Seq<char>, u32, Seq<char>)>,
    serve_running: bool,
    managed: Seq<ManagedModel>,
    i: int,
    l: int,
)
    requires
        is_scan_report(report, physical, keys, loopbacks, serve_running, managed),
        have_own_paths(physical),
        0 <= i < physical.len(),
        forall|k: int|
            0 <= k < managed.len() ==> (#[trigger] managed[k]).serial != keys[i]
                || managed[k].quarantined,
        0 <= l < loopbacks.len(),
        loopbacks[l].2 == standardized(physical[i].name) || loopbacks[l].2 == kernel_label(
            standardized(physical[i].name),
        ),
        forall|k: int| 0 <= k < l ==> !is_own_name((#[trigger] loopbacks[k]).2),
    ensures
        exists|k: int|
            {
                &&& 0 <= k < report.devices@.len()
                &&& (#[trigger] report.devices@[k]).role == DeviceRole::Physical
                &&& report.devices@[k].path@ == physical[i].path
                &&& opt_text(report.devices@[k].paired_with) == Some(loopbacks[l].0)
            },
{
    lemma_none_managed(managed, keys[i], managed.len() as int);
    lemma_own_virtual_camera_is_paired(physical[i].name);
    let p = is_virtual_of(physical[i].name);
    assert forall|k: int| 0 <= k < l implies !p(#[trigger] loopbacks[k]) by {
        assert(!is_own_name(loopbacks[k].2));
    }
    lemma_first_where(loopbacks, p, l);
    lemma_shown_with_pair(report, physical, keys, loopbacks, serve_running, managed, i);
}

/// A camera is shown with a partner only for a reason: the supervisor uses that device for it, or the
/// device is a virtual camera of this program. A camera that has neither is shown alone.
pub proof fn lemma_partner_has_a_reason(
    report: ScanReport,
    physical: Seq<ReportModel>,
    keys: Seq<Seq<char>>,
    loopbacks: Seq<(Seq<char>, u32, Seq<char>)>,
    serve_running: bool,
    managed: Seq<ManagedModel>,
    at: int,
)
    requires
        is_scan_report(report, physical, keys, loopbacks, serve_running, managed),
        have_own_paths(physical),
        0 <= at < report.devices@.len(),
        report.devices@[at].role == DeviceRole::Physical,
        report.devices@[at].paired_with is Some,
    ensures
        exists|i: int|
            {
                &&& 0 <= i < physical.len()
                &&& (#[trigger] physical[i]).path == report.devices@[at].path@
                &&& {
                    ||| exists|m: int|
                        {
                            &&& 0 <= m < managed.len()
                            &&& (#[trigger] managed[m]).serial == keys[i]
                            &&& !managed[m].quarantined
                            &&& Some(managed[m].loopback_path) == opt_text(
                                report.devices@[at].paired_with,
                            )
                        }
                    ||| exists|l: int|
                        {
                            &&& 0 <= l < loopbacks.len()
                            &&& Some((#[trigger] loopbacks[l]).0) == opt_text(
                                report.devices@[at].paired_with,
                            )
                            &&& is_own_name(loopbacks[l].2)
                            &&& names_match(physical[i].name, loopbacks[l].2)
                        }
                }
            },
{
    let n = physical.len() as int;
    let pairing = pairs(physical, keys, loopbacks, managed);
    let shown = all_views(physical, keys, loopbacks, serve_running, managed);
    let models = view_models(report.devices@);
    let i = crate::order::lemma_sorted_from(shown, models, view_order(), at);
    assert(models[at] == report.devices@[at]@);
    if i >= n {
        assert(shown[i].role != DeviceRole::Physical);
    }
    lemma_virtual_at_own_path(physical, pairing, i, n);
    assert(physical[i].path == report.devices@[at].path@);
    assert(pairing[i] == pair_of(physical[i], keys[i], loopbacks, managed));
    assert(opt_text(report.devices@[at].paired_with) == pairing[i]);
    if managed_loopback(managed, keys[i], managed.len() as int) is Some {
        let m = lemma_managed_source(managed, keys[i], managed.len() as int);
        assert(managed[m].serial == keys[i]);
    } else {
        let p = is_virtual_of(physical[i].name);
        lemma_first_found(loopbacks, p);
        let l = first_where(loopbacks, p);
        assert(p(loopbacks[l]));
        assert(Some(loopbacks[l].0) == opt_text(report.devices@[at].paired_with));
    }
}

proof fn lemma_only_managed(managed: Seq<ManagedModel>, key: Seq<char>, m: int, n: int)
    requires
        0 <= m < n <= managed.len(),
        managed[m].serial == key,
        !managed[m].quarantined,
        forall|k: int| 0 <= k < managed.len() && k != m ==> (#[trigger] managed[k]).serial != key,
    ensures
        managed_loopback(managed, key, n) == Some(managed[m].loopback_path),
    decreases n,
{
    if n - 1 != m {
        assert(managed[n - 1].serial != key);
        lemma_only_managed(managed, key, m, n - 1);
    }
}

proof fn lemma_none_managed(managed: Seq<ManagedModel>, key: Seq<char>, n: int)
    requires
        0 <= n <= managed.len(),
        forall|k: int|
            0 <= k < managed.len() ==> (#[trigger] managed[k]).serial != key
                || managed[k].quarantined,
    ensures
        managed_loopback(managed, key, n) is None,
    decreases n,
{
    if n > 0 {
        assert(managed[n - 1].serial != key || managed[n - 1].quarantined);
        lemma_none_managed(managed, key, n - 1);
    }
}

proof fn lemma_managed_source(managed: Seq<ManagedModel>, key: Seq<char>, n: int) -> (r: int)
    requires
        0 <= n <= managed.len(),
        managed_loopback(managed, key, n) is Some,
    ensures
        0 <= r < n,
        managed[r].serial == key,
        !managed[r].quarantined,
        managed_loopback(managed, key, n) == Some(managed[r].loopback_path),
    decreases n,
{
    if !managed[n - 1].quarantined && managed[n - 1].serial == key {
        n - 1
    } else {
        lemma_managed_source(managed, key, n - 1)
    }
}

proof fn lemma_virtual_at_own_path(
    physical: Seq<ReportModel>,
    pairing: Seq<Option<Seq<char>>>,
    i: int,
    n: int,
)
    requires
        pairing.len() == physical.len(),
        have_own_paths(physical),
        0 <= i < physical.len(),
        0 <= n <= physical.len(),
    ensures
        virtual_at(physical, pairing, physical[i].path, n) == if i < n {
            pairing[i]
        } else {
            None
        },
    decreases n,
{
    if n > 0 {
        lemma_virtual_at_own_path(physical, pairing, i, n - 1);
        if n - 1 != i {
            assert(physical[n - 1].path != physical[i].path);
        }
    }
}

proof fn lemma_shown_with_pair(
    report: ScanReport,
    physical: Seq<ReportModel>,
    keys: Seq<Seq<char>>,
    loopbacks: Seq<(Seq<char>, u32, Seq<char>)>,
    serve_running: bool,
    managed: Seq<ManagedModel>,
    i: int,
)
    requires
        is_scan_report(report, physical, keys, loopbacks, serve_running, managed),
        have_own_paths(physical),
        0 <= i < physical.len(),
    ensures
        exists|k: int|
            {
                &&& 0 <= k < report.devices@.len()
                &&& (#[trigger] report.devices@[k]).role == DeviceRole::Physical
                &&& report.devices@[k].path@ == physical[i].path
                &&& opt_text(report.devices@[k].paired_with) == pair_of(
                    physical[i],
                    keys[i],
                    loopbacks,
                    managed,
                )
            },
{
    let n = physical.len() as int;
    let pairing = pairs(physical, keys, loopbacks, managed);
    let shown = all_views(physical, keys, loopbacks, serve_running, managed);
    let models = view_models(report.devices@);
    lemma_virtual_at_own_path(physical, pairing, i, n);
    assert forall|a: ViewModel| !#[trigger] view_order()(a, a) by {
        crate::order::lemma_text_before_total(a.path, a.path);
    }
    let k = crate::order::lemma_sorted_keeps(shown, models, view_order(), i);
    assert(models[k] == report.devices@[k]@);
    assert(shown[i] == physical_view(physical[i], pairing[i]));
}

} // verus!
