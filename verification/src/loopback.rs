//! Loopback devices: naming them, finding them, and the processes that hold them open.
use vstd::prelude::*;
use vstd::utf8::{decode_utf8, valid_utf8};

use crate::compat::{
    field_text, first_bytes, fits_kernel, kernel_card_label, kernel_label, kernel_label_field,
    lemma_field_keeps_label, plain_label, standardized,
};
use crate::error::CamShimError;
use crate::order::{
    as_positions, lemma_order_of_items, picked, sorted_by, stable_order,
};
use crate::split::{
    file_name, file_name_of, first_where, lemma_filter_nothing, lemma_filter_step, lemma_first_where,
    lemma_map_push, lines, lines_of, split_zero, utf8_text, words, words_of, zero_separated,
};
use crate::sys::{busy_code, no_device_code};
use crate::text::{
    concat2, concat4, contains, decimal, decimal_of, ends_with, is_empty, is_space, join, joined, occurs,
    occurs_at, opt_text, parse_usize, parsed_number, starts_with, str_eq, strip_prefix, strip_suffix,
    texts, trim, trimmed, trimmed_end, trimmed_start, without_prefix, without_suffix,
};

verus! {

broadcast use crate::text::group_texts;

/// A loopback device that was made for a camera.
#[derive(Debug)]
pub struct LoopbackDevice {
    pub path: String,
    pub label: String,
}

/// A loopback device of the system.
#[derive(Debug)]
pub struct LoopbackDeviceInfo {
    pub path: String,
    pub index: u32,
    pub name: String,
}

impl Clone for LoopbackDeviceInfo {
    fn clone(&self) -> (r: Self)
        ensures
            r == *self,
    {
        LoopbackDeviceInfo { path: self.path.clone(), index: self.index, name: self.name.clone() }
    }
}

impl View for LoopbackDeviceInfo {
    type V = (Seq<char>, u32, Seq<char>);

    open spec fn view(&self) -> (Seq<char>, u32, Seq<char>) {
        (self.path@, self.index, self.name@)
    }
}

/// A process that holds a device open.
#[derive(Debug)]
pub struct DeviceHolder {
    pub pid: u32,
    pub label: String,
}

impl Clone for DeviceHolder {
    fn clone(&self) -> (r: Self)
        ensures
            r == *self,
    {
        DeviceHolder { pid: self.pid, label: self.label.clone() }
    }
}

/// The name of a loopback device is one that this program gives: it has a suffix of its labels, or
/// the end of an early label that the kernel cut at 31 bytes.
pub open spec fn is_own_name(name: Seq<char>) -> bool {
    let name = trimmed(name);
    ||| occurs(name, "Linux Std"@)
    ||| occurs(name, "Linux Standardized"@)
    ||| occurs(name, "Standardized Camera"@)
    ||| " -"@.is_suffix_of(name)
}

/// Whether the name of a loopback device is one that this program gives.
pub fn is_cam_shim_loopback(name: &str) -> (r: bool)
    ensures
        r == is_own_name(name@),
{
    let name = trim(name);
    if contains(&name, "Linux Std") || contains(&name, "Linux Standardized") || contains(
        &name,
        "Standardized Camera",
    ) {
        return true;
    }
    ends_with(&name, " -")
}

/// A sysfs link leads to a virtual device.
pub open spec fn leads_to_virtual(target: Seq<char>) -> bool {
    occurs(target, "devices/virtual/video4linux"@)
}

/// Every link into the directory of virtual video devices leads to a virtual device, and one that holds
/// `virtual` nowhere does not.
pub proof fn lemma_leads_to_virtual(before: Seq<char>, after: Seq<char>, target: Seq<char>)
    ensures
        leads_to_virtual(before + "devices/virtual/video4linux"@ + after),
        !occurs(target, "virtual"@) ==> !leads_to_virtual(target),
{
    reveal_strlit("devices/virtual/video4linux");
    reveal_strlit("virtual");
    let dir = "devices/virtual/video4linux"@;
    let link = before + dir + after;
    assert(link.subrange(before.len() as int, before.len() as int + dir.len()) =~= dir);
    assert(occurs_at(link, dir, before.len() as int));
    if leads_to_virtual(target) {
        let at = choose|at: int| occurs_at(target, dir, at);
        assert(dir.subrange(8, 15) =~= "virtual"@);
        assert(target.subrange(at + 8, at + 15) =~= target.subrange(at, at + dir.len()).subrange(
            8,
            15,
        ));
        assert(occurs_at(target, "virtual"@, at + 8));
    }
}

/// Whether the sysfs link of a video node leads to a virtual device.
pub fn is_loopback_sysfs_target(target: &str) -> (r: bool)
    ensures
        r == leads_to_virtual(target@),
        r == occurs(target@, "devices/virtual/video4linux"@),
{
    contains(target, "devices/virtual/video4linux")
}

/// Beginning with `prefix`, as a predicate.
pub open spec fn begins_with(prefix: Seq<char>) -> spec_fn(Seq<char>) -> bool {
    |s: Seq<char>| prefix.is_prefix_of(s)
}

/// The device path that a line of the control tool's output reports.
pub open spec fn reported_path(line: Seq<char>) -> Option<Seq<char>> {
    let line = trimmed(line);
    if "/dev/video"@.is_prefix_of(line) {
        Some(line)
    } else {
        let words = words_of(line);
        let at = first_where(words, begins_with("/dev/video"@));
        if at < words.len() {
            Some(words[at])
        } else {
            None
        }
    }
}

/// Reads the device path that a line of the control tool's output reports.
pub fn parse_created_device_path(line: &str) -> (r: Option<String>)
    ensures
        opt_text(r) == reported_path(line@),
{
    let text = trim(line);
    if starts_with(&text, "/dev/video") {
        return Some(text);
    }
    let parts = words(&text);
    let ghost all = words_of(text@);
    assert(texts(parts@).len() == parts@.len());
    let mut i: usize = 0;
    while i < parts.len()
        invariant
            i <= parts@.len(),
            texts(parts@) == all,
            all == words_of(trimmed(line@)),
            !"/dev/video"@.is_prefix_of(trimmed(line@)),
            all.len() == parts@.len(),
            forall|j: int| 0 <= j < i ==> !begins_with("/dev/video"@)(#[trigger] all[j]),
        decreases parts@.len() - i,
    {
        assert(all[i as int] == parts@[i as int]@);
        if starts_with(&parts[i], "/dev/video") {
            proof {
                lemma_first_where(all, begins_with("/dev/video"@), i as int);
            }
            return Some(parts[i].clone());
        }
        i += 1;
    }
    proof {
        lemma_first_where(all, begins_with("/dev/video"@), i as int);
    }
    None
}

/// A line that reports a device path, as a predicate.
pub open spec fn reports_path() -> spec_fn(Seq<char>) -> bool {
    |line: Seq<char>| reported_path(line) is Some
}

/// The first device path that the control tool's output reports.
pub open spec fn first_reported_path(output: Seq<char>) -> Option<Seq<char>> {
    let lines = lines_of(output);
    let at = first_where(lines, reports_path());
    if at < lines.len() {
        reported_path(lines[at])
    } else {
        None
    }
}

/// Reads the device path out of what the control tool printed.
pub fn created_device_path(output: &str) -> (r: Result<String, CamShimError>)
    ensures
        match r {
            Ok(path) => first_reported_path(output@) == Some(path@),
            Err(err) => first_reported_path(output@) is None && err.is_other(
                "could not parse loopback device path from v4l2loopback-ctl output: "@ + output@,
            ),
        },
{
    let parts = lines(output);
    let ghost all = lines_of(output@);
    assert(texts(parts@).len() == parts@.len());
    let mut i: usize = 0;
    while i < parts.len()
        invariant
            i <= parts@.len(),
            texts(parts@) == all,
            all == lines_of(output@),
            all.len() == parts@.len(),
            forall|j: int| 0 <= j < i ==> !reports_path()(#[trigger] all[j]),
        decreases parts@.len() - i,
    {
        assert(all[i as int] == parts@[i as int]@);
        if let Some(path) = parse_created_device_path(&parts[i]) {
            proof {
                lemma_first_where(all, reports_path(), i as int);
            }
            return Ok(path);
        }
        i += 1;
    }
    proof {
        lemma_first_where(all, reports_path(), i as int);
    }
    Err(
        CamShimError::other(
            concat2(
                "could not parse loopback device path from v4l2loopback-ctl output: ",
                output,
            ),
        ),
    )
}

/// A usage text shows that the control tool can create devices.
pub open spec fn shows_create(stdout: Seq<char>, stderr: Seq<char>) -> bool {
    occurs(stdout + stderr, "create"@)
}

/// The control tool can create devices wherever either of its outputs names that; without any output it
/// cannot.
pub proof fn lemma_shows_create(stdout: Seq<char>, stderr: Seq<char>)
    ensures
        occurs(stdout, "create"@) || occurs(stderr, "create"@) ==> shows_create(stdout, stderr),
        !shows_create(Seq::empty(), Seq::empty()),
{
    reveal_strlit("create");
    let both = stdout + stderr;
    if occurs(stdout, "create"@) {
        let at = choose|at: int| occurs_at(stdout, "create"@, at);
        assert(both.subrange(at, at + 6) =~= stdout.subrange(at, at + 6));
        assert(occurs_at(both, "create"@, at));
    }
    if occurs(stderr, "create"@) {
        let at = choose|at: int| occurs_at(stderr, "create"@, at);
        let there = stdout.len() + at;
        assert(both.subrange(there, there + 6) =~= stderr.subrange(at, at + 6));
        assert(occurs_at(both, "create"@, there));
    }
}

/// Whether the control tool's usage text shows that it can create devices.
pub fn ctl_supports_create(stdout: &str, stderr: &str) -> (r: bool)
    ensures
        r == shows_create(stdout@, stderr@),
        r == occurs(stdout@ + stderr@, "create"@),
{
    contains(&concat2(stdout, stderr), "create")
}

/// One entry of the system's list of video nodes.
#[derive(Debug)]
pub struct SysfsEntry {
    /// The name of the node, such as `video0`.
    pub name: String,
    /// Whether the node belongs to a virtual device.
    pub loopback: bool,
    /// The name of the device, where it can be read.
    pub card: Option<String>,
}

/// A device name fits the label of a virtual camera.
pub open spec fn label_fits(label: Seq<char>, device_name: Seq<char>) -> bool {
    let plain = match without_prefix(label, "webcam: "@) {
        Some(rest) => rest,
        None => label,
    };
    ||| kernel_label(label).is_prefix_of(device_name)
    ||| device_name.is_prefix_of(label)
    ||| plain.is_prefix_of(device_name)
}

fn fits_label(label: &str, device_name: &str) -> (r: bool)
    ensures
        r == label_fits(label@, device_name@),
{
    let kernel = kernel_card_label(label);
    if starts_with(device_name, &kernel) || starts_with(label, device_name) {
        return true;
    }
    match strip_prefix(label, "webcam: ") {
        Some(plain) => starts_with(device_name, &plain),
        None => starts_with(device_name, label),
    }
}

/// An entry is a loopback device whose name fits the label.
pub open spec fn entry_fits(label: Seq<char>, entry: SysfsEntry) -> bool {
    entry.loopback && (entry.card matches Some(card) && label_fits(label, trimmed(card@)))
}

/// `r` is the path of the last entry whose name fits the label, or there is none.
pub open spec fn is_found_by_label(
    label: Seq<char>,
    entries: Seq<SysfsEntry>,
    r: Option<Seq<char>>,
) -> bool {
    &&& r is Some <==> {
        &&& forall|i: int|
            0 <= i < entries.len() && (#[trigger] entries[i]).loopback ==> entries[i].card is Some
        &&& exists|i: int| 0 <= i < entries.len() && entry_fits(label, #[trigger] entries[i])
    }
    &&& r matches Some(path) ==> exists|i: int|
        {
            &&& 0 <= i < entries.len()
            &&& entry_fits(label, #[trigger] entries[i])
            &&& path == "/dev/"@ + entries[i].name@
            &&& forall|j: int|
                i < j < entries.len() ==> !entry_fits(label, #[trigger] entries[j])
        }
}

/// A device that the kernel shows under the label it was given, or under the display label, is found,
/// as long as the names of all loopback devices can be read. What is found is always a loopback
/// device.
pub proof fn lemma_device_is_found_by_label(
    label: Seq<char>,
    entries: Seq<SysfsEntry>,
    r: Option<Seq<char>>,
    at: int,
)
    requires
        is_found_by_label(label, entries, r),
        0 <= at < entries.len(),
        entries[at].loopback,
        entries[at].card matches Some(card) && (kernel_label(label).is_prefix_of(trimmed(card@))
            || trimmed(card@) == label),
        forall|i: int|
            0 <= i < entries.len() && (#[trigger] entries[i]).loopback ==> entries[i].card is Some,
    ensures
        r matches Some(path) && exists|i: int|
            at <= i < entries.len() && (#[trigger] entries[i]).loopback && path == "/dev/"@
                + entries[i].name@,
{
    assert(entry_fits(label, entries[at])) by {
        assert(trimmed(entries[at].card->0@).is_prefix_of(trimmed(entries[at].card->0@)));
    }
    let path = r->0;
    let i = choose|i: int|
        {
            &&& 0 <= i < entries.len()
            &&& entry_fits(label, #[trigger] entries[i])
            &&& path == "/dev/"@ + entries[i].name@
            &&& forall|j: int|
                i < j < entries.len() ==> !entry_fits(label, #[trigger] entries[j])
        };
    assert(entries[i].loopback);
}

/// A device is taken for one of a label only where its name begins with the label that the kernel was
/// given, the display label begins with its name, or its name begins with the display label.
pub proof fn lemma_label_fits(label: Seq<char>, device_name: Seq<char>)
    ensures
        label_fits(label, kernel_label(label)),
        label_fits(label, label),
        label_fits(label, device_name) && !"webcam: "@.is_prefix_of(label) ==> kernel_label(
            label,
        ).is_prefix_of(device_name) || device_name.is_prefix_of(label) || label.is_prefix_of(
            device_name,
        ),
        kernel_label(label).is_prefix_of(device_name) ==> label_fits(label, device_name),
        device_name.is_prefix_of(label) ==> label_fits(label, device_name),
{
    assert(kernel_label(label).is_prefix_of(kernel_label(label)));
    assert(label.is_prefix_of(label));
}

/// The path of a loopback device with the given label, of several the last one. There is none
/// where the name of some loopback device cannot be read.
pub fn find_loopback_by_label(label: &str, entries: &Vec<SysfsEntry>) -> (r: Option<String>)
    ensures
        is_found_by_label(label@, entries@, opt_text(r)),
        r is Some <==> {
            &&& forall|i: int|
                0 <= i < entries@.len() && (#[trigger] entries@[i]).loopback
                    ==> entries@[i].card is Some
            &&& exists|i: int| 0 <= i < entries@.len() && entry_fits(label@, #[trigger] entries@[i])
        },
        r matches Some(path) ==> exists|i: int|
            {
                &&& 0 <= i < entries@.len()
                &&& entry_fits(label@, #[trigger] entries@[i])
                &&& path@ == "/dev/"@ + entries@[i].name@
                &&& forall|j: int|
                    i < j < entries@.len() ==> !entry_fits(label@, #[trigger] entries@[j])
            },
{
    let mut found: Option<usize> = None;
    let mut i: usize = 0;
    while i < entries.len()
        invariant
            i <= entries@.len(),
            forall|j: int|
                0 <= j < i && (#[trigger] entries@[j]).loopback ==> entries@[j].card is Some,
            match found {
                Some(k) => k < i && entry_fits(label@, entries@[k as int]) && forall|j: int|
                    k < j < i ==> !entry_fits(label@, #[trigger] entries@[j]),
                None => forall|j: int|
                    0 <= j < i ==> !entry_fits(label@, #[trigger] entries@[j]),
            },
        decreases entries@.len() - i,
    {
        if entries[i].loopback {
            match &entries[i].card {
                None => {
                    return None;
                },
                Some(card) => {
                    let name = trim(card);
                    if fits_label(label, &name) {
                        found = Some(i);
                    }
                },
            }
        }
        i += 1;
    }
    match found {
        Some(k) => Some(concat2("/dev/", &entries[k].name)),
        None => None,
    }
}

/// The number in the name of a video node.
pub open spec fn node_number(name: Seq<char>) -> Option<nat> {
    match without_prefix(name, "video"@) {
        Some(digits) => parsed_number(digits, usize::MAX as nat),
        None => None,
    }
}

/// Reads the number in the name of a video node.
pub fn video_number(name: &str) -> (r: Option<usize>)
    ensures
        match r {
            Some(n) => node_number(name@) == Some(n as nat),
            None => node_number(name@) is None,
        },
{
    match strip_prefix(name, "video") {
        Some(digits) => parse_usize(&digits),
        None => None,
    }
}

/// An entry is a loopback device with a number.
pub open spec fn numbered_loopback(entry: SysfsEntry) -> bool {
    entry.loopback && node_number(entry.name@) is Some
}

/// `r` is the path of the numbered loopback device with the highest number, of several the first one,
/// or there is none.
pub open spec fn is_latest_device(entries: Seq<SysfsEntry>, r: Option<Seq<char>>) -> bool {
    match r {
        Some(path) => exists|i: int|
            {
                &&& 0 <= i < entries.len()
                &&& numbered_loopback(#[trigger] entries[i])
                &&& path == "/dev/"@ + entries[i].name@
                &&& forall|j: int|
                    0 <= j < entries.len() && numbered_loopback(#[trigger] entries[j])
                        ==> node_number(entries[j].name@)->0 <= node_number(entries[i].name@)->0
            },
        None => forall|i: int| 0 <= i < entries.len() ==> !numbered_loopback(#[trigger] entries[i]),
    }
}

/// Where there is a loopback device with a number, one is found, and its number is no lower.
pub proof fn lemma_latest_device(entries: Seq<SysfsEntry>, r: Option<Seq<char>>, at: int, nr: nat)
    requires
        is_latest_device(entries, r),
        0 <= at < entries.len(),
        entries[at].loopback,
        entries[at].name@ == "video"@ + decimal(nr),
        nr <= u32::MAX,
    ensures
        r matches Some(path) && exists|i: int|
            {
                &&& 0 <= i < entries.len()
                &&& (#[trigger] entries[i]).loopback
                &&& path == "/dev/"@ + entries[i].name@
                &&& node_number(entries[i].name@) matches Some(n) && n >= nr
            },
{
    crate::create::lemma_number_is_read_back(nr);
    assert(crate::create::node_name(nr) == "video"@ + decimal(nr));
    assert(numbered_loopback(entries[at]));
    let i = choose|i: int|
        {
            &&& 0 <= i < entries.len()
            &&& numbered_loopback(#[trigger] entries[i])
            &&& r->0 == "/dev/"@ + entries[i].name@
            &&& forall|j: int|
                0 <= j < entries.len() && numbered_loopback(#[trigger] entries[j]) ==> node_number(
                    entries[j].name@,
                )->0 <= node_number(entries[i].name@)->0
        };
    assert(entries[i].loopback);
}

/// The path of the loopback device with the highest number.
pub fn find_latest_loopback_device(entries: &Vec<SysfsEntry>) -> (r: Option<String>)
    ensures
        is_latest_device(entries@, opt_text(r)),
        match r {
            Some(path) => exists|i: int|
                {
                    &&& 0 <= i < entries@.len()
                    &&& numbered_loopback(#[trigger] entries@[i])
                    &&& path@ == "/dev/"@ + entries@[i].name@
                    &&& forall|j: int|
                        0 <= j < entries@.len() && numbered_loopback(#[trigger] entries@[j])
                            ==> node_number(entries@[j].name@)->0 <= node_number(
                            entries@[i].name@,
                        )->0 && (j < i ==> node_number(entries@[j].name@)->0 < node_number(
                            entries@[i].name@,
                        )->0)
                },
            None => forall|i: int|
                0 <= i < entries@.len() ==> !numbered_loopback(#[trigger] entries@[i]),
        },
{
    let mut best: Option<(usize, usize)> = None;
    let mut i: usize = 0;
    while i < entries.len()
        invariant
            i <= entries@.len(),
            match best {
                Some((number, k)) => k < i && numbered_loopback(entries@[k as int]) && node_number(
                    entries@[k as int].name@,
                ) == Some(number as nat) && forall|j: int|
                    0 <= j < i && numbered_loopback(#[trigger] entries@[j]) ==> node_number(
                        entries@[j].name@,
                    )->0 <= number && (j < k ==> node_number(entries@[j].name@)->0 < number),
                None => forall|j: int| 0 <= j < i ==> !numbered_loopback(#[trigger] entries@[j]),
            },
        decreases entries@.len() - i,
    {
        if entries[i].loopback {
            if let Some(number) = video_number(&entries[i].name) {
                match best {
                    Some((highest, _)) => {
                        if number > highest {
                            best = Some((number, i));
                        }
                    },
                    None => {
                        best = Some((number, i));
                    },
                }
            }
        }
        i += 1;
    }
    match best {
        Some((_, k)) => Some(concat2("/dev/", &entries[k].name)),
        None => None,
    }
}

/// A loopback device, from its entry.
pub open spec fn device_of_entry(entry: SysfsEntry) -> (Seq<char>, u32, Seq<char>) {
    (
        "/dev/"@ + entry.name@,
        (node_number(entry.name@)->0) as u32,
        match entry.card {
            Some(card) => trimmed(card@),
            None => Seq::empty(),
        },
    )
}

/// The loopback devices of the system, as their entries are listed.
pub open spec fn listed_devices(entries: Seq<SysfsEntry>) -> Seq<(Seq<char>, u32, Seq<char>)> {
    entries.filter(|entry: SysfsEntry| numbered_loopback(entry)).map_values(
        |entry: SysfsEntry| device_of_entry(entry),
    )
}

/// The views of devices.
pub open spec fn device_views(devices: Seq<LoopbackDeviceInfo>) -> Seq<
    (Seq<char>, u32, Seq<char>),
> {
    devices.map_values(|device: LoopbackDeviceInfo| device@)
}

/// Devices with a lower number come first.
pub open spec fn lower_first() -> spec_fn(
    (Seq<char>, u32, Seq<char>),
    (Seq<char>, u32, Seq<char>),
) -> bool {
    |a: (Seq<char>, u32, Seq<char>), b: (Seq<char>, u32, Seq<char>)| a.1 < b.1
}

/// The loopback devices that are listed are those whose nodes have a number, whether or not their
/// name can be read, and they are listed by number.
pub proof fn lemma_loopback_devices_are_listed(
    entries: Seq<SysfsEntry>,
    devices: Seq<LoopbackDeviceInfo>,
    i: int,
    j: int,
)
    requires
        sorted_by(listed_devices(entries), device_views(devices), lower_first()),
    ensures
        forall|at: int, nr: nat|
            0 <= at < entries.len() && (#[trigger] entries[at]).loopback && entries[at].name@
                == "video"@ + #[trigger] decimal(nr) && nr <= u32::MAX ==> exists|k: int|
                {
                    &&& 0 <= k < devices.len()
                    &&& (#[trigger] devices[k]).path@ == "/dev/"@ + entries[at].name@
                    &&& devices[k].index == nr
                    &&& entries[at].card matches Some(card) ==> devices[k].name@ == trimmed(card@)
                    &&& entries[at].card is None ==> devices[k].name@.len() == 0
                },
        0 <= i < devices.len() ==> exists|at: int|
            0 <= at < entries.len() && (#[trigger] entries[at]).loopback && devices[i].path@
                == "/dev/"@ + entries[at].name@,
        0 <= i < j < devices.len() ==> devices[i].index <= devices[j].index,
{
    let listed = listed_devices(entries);
    let views = device_views(devices);
    let numbered = |entry: SysfsEntry| numbered_loopback(entry);
    let kept = entries.filter(numbered);
    assert(listed =~= kept.map_values(|entry: SysfsEntry| device_of_entry(entry)));
    assert forall|at: int, nr: nat|
        0 <= at < entries.len() && (#[trigger] entries[at]).loopback && entries[at].name@
            == "video"@ + #[trigger] decimal(nr) && nr <= u32::MAX implies exists|k: int|
        {
            &&& 0 <= k < devices.len()
            &&& (#[trigger] devices[k]).path@ == "/dev/"@ + entries[at].name@
            &&& devices[k].index == nr
            &&& entries[at].card matches Some(card) ==> devices[k].name@ == trimmed(card@)
            &&& entries[at].card is None ==> devices[k].name@.len() == 0
        } by {
        crate::create::lemma_number_is_read_back(nr);
        assert(crate::create::node_name(nr) == "video"@ + decimal(nr));
        let entry = entries[at];
        assert(numbered(entry));
        assert(entries.contains(entry));
        crate::split::lemma_filter_members(entries, numbered, entry);
        let m = choose|m: int| 0 <= m < kept.len() && kept[m] == entry;
        assert(listed[m] == device_of_entry(entry));
        assert(listed.contains(device_of_entry(entry)));
        crate::order::lemma_sorted_members(listed, views, lower_first(), device_of_entry(entry));
        let k = choose|k: int| 0 <= k < views.len() && views[k] == device_of_entry(entry);
        assert(views[k] == devices[k]@);
    }
    if 0 <= i < devices.len() {
        assert(views[i] == devices[i]@);
        assert(views.contains(views[i]));
        crate::order::lemma_sorted_members(listed, views, lower_first(), views[i]);
        let m = choose|m: int| 0 <= m < listed.len() && listed[m] == views[i];
        assert(listed[m] == device_of_entry(kept[m]));
        assert(kept.contains(kept[m]));
        crate::split::lemma_filter_members(entries, numbered, kept[m]);
        let at = choose|at: int| 0 <= at < entries.len() && entries[at] == kept[m];
        assert(entries[at].loopback);
    }
    if 0 <= i < j < devices.len() {
        assert(views[j] == devices[j]@);
        crate::order::lemma_sorted_in_order(listed, views, lower_first(), i, j);
    }
}

/// The loopback devices of the system, by number.
pub fn list_loopback_devices(entries: &Vec<SysfsEntry>) -> (r: Vec<LoopbackDeviceInfo>)
    ensures
        sorted_by(listed_devices(entries@), device_views(r@), lower_first()),
{
    let ghost p = |entry: SysfsEntry| numbered_loopback(entry);
    let ghost f = |entry: SysfsEntry| device_of_entry(entry);
    let mut devices: Vec<LoopbackDeviceInfo> = Vec::new();
    let mut keys: Vec<u64> = Vec::new();
    let mut i: usize = 0;
    proof {
        lemma_filter_nothing(entries@, p);
        assert(entries@.take(0).filter(p).map_values(f) =~= device_views(devices@));
    }
    while i < entries.len()
        invariant
            i <= entries@.len(),
            p == (|entry: SysfsEntry| numbered_loopback(entry)),
            f == (|entry: SysfsEntry| device_of_entry(entry)),
            device_views(devices@) == entries@.take(i as int).filter(p).map_values(f),
            keys@.len() == devices@.len(),
            forall|k: int| 0 <= k < keys@.len() ==> #[trigger] keys@[k] == devices@[k].index,
        decreases entries@.len() - i,
    {
        let ghost entry = entries@[i as int];
        let ghost before = devices@;
        proof {
            lemma_filter_step(entries@, p, i as int);
            lemma_map_push(entries@.take(i as int).filter(p), f, entry);
        }
        if entries[i].loopback {
            if let Some(number) = video_number(&entries[i].name) {
                let name = match &entries[i].card {
                    Some(card) => trim(card),
                    None => String::new(),
                };
                let index: u32 = #[verifier::truncate]
                (number as u32);
                let device = LoopbackDeviceInfo {
                    path: concat2("/dev/", &entries[i].name),
                    index,
                    name,
                };
                assert(device@ == device_of_entry(entry));
                devices.push(device);
                keys.push(index as u64);
                assert(device_views(devices@) =~= device_views(before).push(device@));
            }
        }
        i += 1;
    }
    assert(entries@.take(i as int) =~= entries@);
    let order = stable_order(&keys);
    proof {
        lemma_order_of_items(keys@, device_views(devices@), lower_first(), as_positions(order@));
        assert forall|i: int| 0 <= i < order@.len() implies #[trigger] order@[i]
            < devices@.len() by {
            assert(as_positions(order@)[i] < devices@.len());
        }
    }
    let sorted = crate::order::pick(&devices, &order);
    assert(device_views(sorted@) =~= picked(device_views(devices@), as_positions(order@)));
    sorted
}

/// The holder list for people: each label with its process number.
pub open spec fn holder_text(holder: DeviceHolder) -> Seq<char> {
    holder.label@ + " ("@ + decimal(holder.pid as nat) + ")"@
}

/// The holders for people.
pub open spec fn holder_texts(holders: Seq<DeviceHolder>) -> Seq<Seq<char>> {
    holders.map_values(|holder: DeviceHolder| holder_text(holder))
}

/// The list of holders for people.
pub open spec fn holder_list(holders: Seq<DeviceHolder>) -> Seq<char> {
    if holders.len() == 0 {
        "none"@
    } else {
        joined(holder_texts(holders), ", "@)
    }
}

/// The list of holders for people.
pub fn format_holder_list(holders: &[DeviceHolder]) -> (r: String)
    ensures
        r@ == holder_list(holders@),
{
    if holders.len() == 0 {
        return "none".to_string();
    }
    let mut parts: Vec<String> = Vec::new();
    let mut i: usize = 0;
    assert(holder_texts(holders@).take(0) =~= Seq::<Seq<char>>::empty());
    while i < holders.len()
        invariant
            i <= holders@.len(),
            texts(parts@) == holder_texts(holders@).take(i as int),
        decreases holders@.len() - i,
    {
        parts.push(
            concat4(&holders[i].label, " (", &decimal_of(holders[i].pid as u64), ")"),
        );
        assert(holder_texts(holders@).take(i + 1) =~= holder_texts(holders@).take(i as int).push(
            holder_text(holders@[i as int]),
        ));
        i += 1;
    }
    assert(holder_texts(holders@).take(i as int) =~= holder_texts(holders@));
    join(&parts, ", ")
}

/// Why a device in use cannot be removed, and what to do.
pub open spec fn busy_text(device_path: Seq<char>, holders: Seq<DeviceHolder>) -> Seq<char> {
    if holders.len() == 0 {
        device_path
            + " is in use — close apps using it, or run `cam-shim clean --force --reload` (module reload clears stuck loopbacks)"@
    } else {
        device_path + " is held open by "@ + holder_list(holders)
            + " — close those apps or run `cam-shim clean --force`"@
    }
}

/// Why a device in use cannot be removed, and what to do.
pub fn busy_reason(device_path: &str, holders: &[DeviceHolder]) -> (r: String)
    ensures
        r@ == busy_text(device_path@, holders@),
{
    if holders.len() == 0 {
        return concat2(
            device_path,
            " is in use — close apps using it, or run `cam-shim clean --force --reload` (module reload clears stuck loopbacks)",
        );
    }
    concat4(
        device_path,
        " is held open by ",
        &format_holder_list(holders),
        " — close those apps or run `cam-shim clean --force`",
    )
}

/// The error says that the device is in use.
pub open spec fn is_busy(err: CamShimError) -> bool {
    err matches CamShimError::Io(failure) && failure.os_code == Some(16i32)
}

/// Whether the error says that the device is in use.
pub fn is_busy_error(err: &CamShimError) -> (r: bool)
    ensures
        r == is_busy(*err),
{
    match err {
        CamShimError::Io(failure) => match failure.os_code {
            Some(code) => code == busy_code(),
            None => false,
        },
        _ => false,
    }
}

/// The error says that the device is not there.
pub open spec fn is_gone(err: CamShimError) -> bool {
    err matches CamShimError::Io(failure) && failure.os_code == Some(19i32)
}

/// Whether the error says that the device is not there.
pub fn is_gone_error(err: &CamShimError) -> (r: bool)
    ensures
        r == is_gone(*err),
{
    match err {
        CamShimError::Io(failure) => match failure.os_code {
            Some(code) => code == no_device_code(),
            None => false,
        },
        _ => false,
    }
}

/// The name under which a process is shown, from the kernel's short name for it and the name of its
/// executable. The kernel keeps 15 bytes of the short name, so where that may be cut, or names an
/// interpreter, the executable is shown.
pub open spec fn process_name_of(comm: Seq<char>, exe: Seq<char>) -> Seq<char> {
    if exe.len() == 0 {
        if comm.len() == 0 {
            "unknown"@
        } else {
            comm
        }
    } else if comm.len() == 0 || comm.is_prefix_of(exe) || vstd::utf8::encode_utf8(comm).len() >= 15
        || comm == "python3"@ || comm == "python"@ || comm == "node"@ || comm == "sh"@ {
        exe
    } else {
        comm
    }
}

/// A process is shown by its executable where the kernel's name for it is missing, is the beginning
/// of that, is so long that it may be cut, or names an interpreter; in all other cases by the kernel's
/// name. No process is shown without a name.
pub proof fn lemma_process_name(comm: Seq<char>, exe: Seq<char>)
    ensures
        process_name_of(comm, exe).len() > 0,
        exe.len() > 0 && (comm.len() == 0 || comm.is_prefix_of(exe)) ==> process_name_of(comm, exe)
            == exe,
        exe.len() > 0 && vstd::utf8::encode_utf8(comm).len() >= 15 ==> process_name_of(comm, exe)
            == exe,
        exe.len() > 0 ==> process_name_of("python3"@, exe) == exe && process_name_of(
            "python"@,
            exe,
        ) == exe && process_name_of("node"@, exe) == exe && process_name_of("sh"@, exe) == exe,
        comm.len() > 0 && process_name_of(comm, exe) != comm ==> process_name_of(comm, exe) == exe
            && (comm.is_prefix_of(exe) || vstd::utf8::encode_utf8(comm).len() >= 15 || comm
            == "python3"@ || comm == "python"@ || comm == "node"@ || comm == "sh"@),
        comm.len() > 0 && exe.len() == 0 ==> process_name_of(comm, exe) == comm,
        comm.len() == 0 && exe.len() == 0 ==> process_name_of(comm, exe) == "unknown"@,
{
    reveal_strlit("unknown");
}

/// The name under which a process is shown.
pub fn pick_process_label(comm: &str, exe_base: &str) -> (r: String)
    ensures
        r@ == process_name_of(comm@, exe_base@),
{
    if is_empty(exe_base) {
        return if is_empty(comm) {
            "unknown".to_string()
        } else {
            comm.to_string()
        };
    }
    if is_empty(comm) {
        return exe_base.to_string();
    }
    if starts_with(exe_base, comm) || comm.as_bytes().len() >= 15 {
        return exe_base.to_string();
    }
    if str_eq(comm, "python3") || str_eq(comm, "python") || str_eq(comm, "node") || str_eq(
        comm,
        "sh",
    ) {
        return exe_base.to_string();
    }
    comm.to_string()
}

/// The executable that a process was started with, by the name of its file: the first argument of
/// its command line, if that is text.
pub open spec fn executable_name(cmdline: Seq<u8>) -> Seq<char> {
    let args = zero_separated(cmdline);
    if args.len() == 0 || !valid_utf8(args[0]) {
        Seq::empty()
    } else {
        let exe = decode_utf8(args[0]);
        match file_name_of(exe) {
            Some(name) => name,
            None => exe,
        }
    }
}

/// The executable of a process is the last part of the path that it was started with, its first argument.
pub proof fn lemma_executable_name(dir: Seq<char>, name: Seq<char>, arg: Seq<u8>)
    requires
        !dir.contains('\0'),
        !name.contains('\0'),
        !name.contains('/'),
        name.len() > 0,
        name != "."@,
        name != ".."@,
        arg.len() > 0,
        !arg.contains(0u8),
    ensures
        executable_name(
            vstd::utf8::encode_utf8(dir + seq!['/'] + name) + seq![0u8] + arg + seq![0u8],
        ) == name,
        executable_name(Seq::<u8>::empty()).len() == 0,
{
    let exe = dir + seq!['/'] + name;
    assert(!exe.contains('\0')) by {
        if exe.contains('\0') {
            let i = choose|i: int| 0 <= i < exe.len() && exe[i] == '\0';
            if i < dir.len() {
                assert(dir[i] == '\0');
            } else if i > dir.len() {
                assert(name[i - dir.len() - 1] == '\0');
            }
        }
    }
    crate::runtime::lemma_text_bytes(exe);
    crate::split::lemma_two_zero_ended(vstd::utf8::encode_utf8(exe), arg);
    crate::split::lemma_file_name(dir, name);
    let none = Seq::<u8>::empty();
    crate::split::lemma_split_none(none, 0u8);
    assert(crate::split::split_on(none, 0u8) =~= Seq::<Seq<u8>>::empty().push(none));
    crate::split::lemma_filter_push(Seq::<Seq<u8>>::empty(), crate::split::non_empty::<u8>(), none);
    crate::split::lemma_filter_nothing(
        Seq::<Seq<u8>>::empty(),
        crate::split::non_empty::<u8>(),
    );
    assert(Seq::<Seq<u8>>::empty().take(0) =~= Seq::<Seq<u8>>::empty());
}

/// The name under which a process is shown, from what the system says of it.
pub fn process_label(comm: Option<String>, cmdline: Option<Vec<u8>>) -> (r: String)
    ensures
        r@ == process_name_of(
            match comm {
                Some(comm) => trimmed(comm@),
                None => Seq::empty(),
            },
            match cmdline {
                Some(cmdline) => executable_name(cmdline@),
                None => Seq::empty(),
            },
        ),
{
    let comm = match comm {
        Some(comm) => trim(&comm),
        None => String::new(),
    };
    let exe_base = match cmdline {
        Some(cmdline) => {
            let args = split_zero(cmdline.as_slice());
            let ghost all = zero_separated(cmdline@);
            assert(args@.map_values(crate::split::bytes_of()).len() == args@.len());
            if args.len() == 0 {
                String::new()
            } else {
                assert(all[0] == args@[0]@);
                match utf8_text(args[0].as_slice()) {
                    Some(exe) => match file_name(&exe) {
                        Some(name) => name,
                        None => exe,
                    },
                    None => String::new(),
                }
            }
        },
        None => String::new(),
    };
    pick_process_label(&comm, &exe_base)
}

/// Text, as a predicate on bytes.
pub open spec fn is_text() -> spec_fn(Seq<u8>) -> bool {
    |bytes: Seq<u8>| valid_utf8(bytes)
}

/// The arguments of a command line that are text.
pub open spec fn text_args(cmdline: Seq<u8>) -> Seq<Seq<char>> {
    zero_separated(cmdline).filter(is_text()).map_values(|bytes: Seq<u8>| decode_utf8(bytes))
}

/// The arguments of a command line that are text.
pub fn command_args(raw: &[u8]) -> (r: Vec<String>)
    ensures
        texts(r@) == text_args(raw@),
{
    let parts = split_zero(raw);
    let ghost all = zero_separated(raw@);
    assert(parts@.map_values(crate::split::bytes_of()).len() == parts@.len());
    let mut out: Vec<String> = Vec::new();
    let mut i: usize = 0;
    let ghost decode = |bytes: Seq<u8>| decode_utf8(bytes);
    proof {
        lemma_filter_nothing(all, is_text());
        assert(all.take(0).filter(is_text()).map_values(decode) =~= Seq::<Seq<char>>::empty());
    }
    while i < parts.len()
        invariant
            i <= parts@.len(),
            parts@.map_values(crate::split::bytes_of()) == all,
            all.len() == parts@.len(),
            decode == (|bytes: Seq<u8>| decode_utf8(bytes)),
            texts(out@) == all.take(i as int).filter(is_text()).map_values(decode),
        decreases parts@.len() - i,
    {
        assert(all[i as int] == parts@[i as int]@);
        let text = utf8_text(parts[i].as_slice());
        proof {
            lemma_filter_step(all, is_text(), i as int);
            lemma_map_push(all.take(i as int).filter(is_text()), decode, all[i as int]);
        }
        if let Some(text) = text {
            out.push(text);
        }
        i += 1;
    }
    assert(all.take(i as int) =~= all);
    out
}

/// An executable is this program.
pub open spec fn is_own_executable(exe: Seq<char>) -> bool {
    "cam-shim"@.is_suffix_of(exe) || occurs(exe, "/cam-shim"@)
}

/// A command line runs this program in one of the modes that keep a camera busy.
pub open spec fn is_daemon_cmdline(cmdline: Seq<u8>) -> bool {
    let args = text_args(cmdline);
    &&& args.len() > 1
    &&& is_own_executable(args[0])
    &&& args[1] == "serve"@ || args[1] == "fix"@ || args[1] == "relay"@
}

/// Whether a command line runs this program in one of the modes that keep a camera busy.
pub fn is_cam_shim_daemon_cmdline(raw: &[u8]) -> (r: bool)
    ensures
        r == is_daemon_cmdline(raw@),
{
    let args = command_args(raw);
    assert(texts(args@).len() == args@.len());
    if args.len() < 2 {
        return false;
    }
    assert(texts(args@)[0] == args@[0]@);
    assert(texts(args@)[1] == args@[1]@);
    if !ends_with(&args[0], "cam-shim") && !contains(&args[0], "/cam-shim") {
        return false;
    }
    str_eq(&args[1], "serve") || str_eq(&args[1], "fix") || str_eq(&args[1], "relay")
}

/// The video device that an open file refers to, also where the device is gone.
pub open spec fn device_of_link(link: Seq<char>) -> Option<Seq<char>> {
    let link = match without_suffix(link, " (deleted)"@) {
        Some(rest) => rest,
        None => link,
    };
    if "/dev/video"@.is_prefix_of(link) {
        Some(link)
    } else {
        None
    }
}

/// An open file refers to the device whose path it shows, also once the device is gone; a file that
/// is no video device refers to none.
pub proof fn lemma_link_shows_device(path: Seq<char>)
    requires
        !" (deleted)"@.is_suffix_of(path),
    ensures
        "/dev/video"@.is_prefix_of(path) ==> device_of_link(path) == Some(path) && device_of_link(
            path + " (deleted)"@,
        ) == Some(path),
        !"/dev/video"@.is_prefix_of(path) ==> device_of_link(path) is None,
{
    let gone = path + " (deleted)"@;
    assert(" (deleted)"@.is_suffix_of(gone)) by {
        assert(gone.subrange(gone.len() - " (deleted)"@.len(), gone.len() as int)
            =~= " (deleted)"@);
    }
    assert(gone.subrange(0, gone.len() - " (deleted)"@.len()) =~= path);
}

/// The video device that an open file refers to.
pub fn video_device_path_key(link: &str) -> (r: Option<String>)
    ensures
        opt_text(r) == device_of_link(link@),
{
    let link = match strip_suffix(link, " (deleted)") {
        Some(rest) => rest,
        None => link.to_string(),
    };
    if starts_with(&link, "/dev/video") {
        Some(link)
    } else {
        None
    }
}

/// Whether an open file refers to a device, given where the device's path leads: by its path, by
/// where that leads, or by its file name.
pub fn fd_targets_device(link: &str, device_path: &str, canonical: Option<String>) -> (r: bool)
    ensures
        r == (device_of_link(link@) matches Some(key) && (key == device_path@ || opt_text(canonical)
            == Some(key) || (file_name_of(device_path@) is Some && file_name_of(device_path@)
            == file_name_of(key)))),
{
    let key = match video_device_path_key(link) {
        Some(key) => key,
        None => {
            return false;
        },
    };
    if str_eq(&key, device_path) {
        return true;
    }
    if let Some(canonical) = canonical {
        if str_eq(&canonical, &key) {
            return true;
        }
    }
    match (file_name(device_path), file_name(&key)) {
        (Some(a), Some(b)) => str_eq(&a, &b),
        _ => false,
    }
}

/// Trimming keeps an end that neither begins nor ends with white space.
proof fn lemma_trim_keeps_suffix(s: Seq<char>, end: Seq<char>)
    requires
        end.is_suffix_of(s),
        end.len() > 0,
        !is_space(end[0]),
        !is_space(end.last()),
    ensures
        end.is_suffix_of(trimmed(s)),
    decreases s.len(),
{
    assert(s.subrange(s.len() - end.len(), s.len() as int) == end);
    assert(s.last() == end.last());
    if is_space(s[0]) {
        let rest = s.subrange(1, s.len() as int);
        assert(s.len() > end.len()) by {
            if s.len() == end.len() {
                assert(s[0] == end[0]);
            }
        }
        assert(rest.subrange(rest.len() - end.len(), rest.len() as int) =~= end);
        lemma_trim_keeps_suffix(rest, end);
    } else {
        assert(trimmed_start(s) == s);
        assert(trimmed_end(s) == s);
    }
}

/// Trimming leaves alone what neither begins nor ends with white space.
proof fn lemma_trim_nothing(s: Seq<char>)
    requires
        s.len() > 0,
        !is_space(s[0]),
        !is_space(s.last()),
    ensures
        trimmed(s) == s,
{
}

/// A trimmed text that is not empty begins with no white space.
proof fn lemma_trimmed_start(s: Seq<char>)
    ensures
        trimmed_start(s).len() > 0 ==> !is_space(trimmed_start(s)[0]),
    decreases s.len(),
{
    if s.len() > 0 && is_space(s[0]) {
        lemma_trimmed_start(s.subrange(1, s.len() as int));
    }
}

proof fn lemma_trimmed_end_begins(s: Seq<char>)
    ensures
        trimmed_end(s).is_prefix_of(s),
    decreases s.len(),
{
    if s.len() > 0 && is_space(s.last()) {
        lemma_trimmed_end_begins(s.drop_last());
        let kept = trimmed_end(s.drop_last());
        assert(s.subrange(0, kept.len() as int) =~= s.drop_last().subrange(0, kept.len() as int));
    } else {
        assert(s.subrange(0, s.len() as int) =~= s);
    }
}

/// The label of the virtual camera of a camera is one that this program recognises as its own,
/// whatever the name of the camera: the full label, the one that the kernel module is given, and
/// what the kernel reads back from its label field.
pub proof fn lemma_own_label_is_recognised(name: Seq<char>)
    ensures
        is_own_name(standardized(name)),
        is_own_name(kernel_label(standardized(name))),
        !kernel_label(standardized(name)).contains('\0') ==> is_own_name(
            field_text(kernel_label_field(standardized(name))),
        ),
{
    if !kernel_label(standardized(name)).contains('\0') {
        lemma_field_keeps_label(standardized(name));
    }
    reveal_strlit(" - Linux Standardized");
    reveal_strlit("Linux Standardized");
    reveal_strlit(" - Linux Std");
    reveal_strlit("Linux Std");
    reveal_strlit("Webcam");
    reveal_strlit("webcam: ");
    let suffix = " - Linux Standardized"@;
    let whole = "Linux Standardized"@;
    let short = "Linux Std"@;
    let label = standardized(name);
    let base = if trimmed(name).len() == 0 {
        "Webcam"@
    } else {
        trimmed(name)
    };
    assert(label == base + suffix);
    assert(!is_space(base[0])) by {
        lemma_trimmed_start(name);
        lemma_trimmed_end_begins(trimmed_start(name));
    }
    assert(label[0] == base[0]);
    assert(label.last() == suffix.last());
    lemma_trim_nothing(label);
    assert(label.subrange(label.len() - 18, label.len() as int) =~= whole);
    lemma_ends_own(label, whole);
    let plain = plain_label(label);
    if "webcam: "@.is_prefix_of(label) {
        assert(base.len() >= 7) by {
            if base.len() < 7 {
                let at = base.len() as int;
                assert(label[at] == ' ');
                assert("webcam: "@[at] == label.subrange(0, 8)[at]);
            }
        }
        assert(plain =~= label.subrange(8, label.len() as int));
    }
    assert(plain.subrange(plain.len() - 18, plain.len() as int) =~= whole);
    assert(occurs_at(plain, whole, plain.len() - 18));
    let kernel = kernel_label(label);
    if fits_kernel(plain) {
        lemma_ends_own(plain, whole);
    } else {
        let head = first_bytes(plain, 19);
        assert(kernel == head + " - Linux Std"@);
        assert(kernel.subrange(kernel.len() - 9, kernel.len() as int) =~= short);
        lemma_ends_own(kernel, short);
    }
}

/// What ends with a suffix of this program's labels is recognised.
proof fn lemma_ends_own(s: Seq<char>, end: Seq<char>)
    requires
        end.is_suffix_of(s),
        end == "Linux Standardized"@ || end == "Linux Std"@,
    ensures
        is_own_name(s),
{
    reveal_strlit("Linux Standardized");
    reveal_strlit("Linux Std");
    lemma_trim_keeps_suffix(s, end);
    let t = trimmed(s);
    assert(t.subrange(t.len() - end.len(), t.len() as int) == end);
    let at = t.len() - end.len();
    assert(occurs_at(t, end, at));
}

/// The name of a loopback device is taken for one of this program exactly when one of its marks stands
/// in it, or it ends as an early label that was cut.
pub proof fn lemma_own_names(name: Seq<char>)
    ensures
        occurs(name, "Linux Std"@) || occurs(name, "Linux Standardized"@) || occurs(
            name,
            "Standardized Camera"@,
        ) ==> is_own_name(name),
        is_own_name(name) ==> occurs(name, "Linux Std"@) || occurs(name, "Linux Standardized"@)
            || occurs(name, "Standardized Camera"@) || occurs(name, " -"@),
        name.len() > 0 && !is_space(name[0]) && !is_space(name.last()) ==> (is_own_name(name)
            <==> occurs(name, "Linux Std"@) || occurs(name, "Linux Standardized"@) || occurs(
            name,
            "Standardized Camera"@,
        ) || " -"@.is_suffix_of(name)),
{
    reveal_strlit("Linux Std");
    reveal_strlit("Linux Standardized");
    reveal_strlit("Standardized Camera");
    reveal_strlit(" -");
    if occurs(name, "Linux Std"@) {
        crate::compat::lemma_trim_keeps(name, "Linux Std"@);
    }
    if occurs(name, "Linux Standardized"@) {
        crate::compat::lemma_trim_keeps(name, "Linux Standardized"@);
    }
    if occurs(name, "Standardized Camera"@) {
        crate::compat::lemma_trim_keeps(name, "Standardized Camera"@);
    }
    lemma_stands_in_untrimmed(name, "Linux Std"@);
    lemma_stands_in_untrimmed(name, "Linux Standardized"@);
    lemma_stands_in_untrimmed(name, "Standardized Camera"@);
    lemma_stands_in_untrimmed(name, " -"@);
    if " -"@.is_suffix_of(trimmed(name)) {
        let at = trimmed(name).len() - " -"@.len();
        assert(occurs_at(trimmed(name), " -"@, at));
    }
    if name.len() > 0 && !is_space(name[0]) && !is_space(name.last()) {
        lemma_trim_nothing(name);
    }
}

/// What stands in a trimmed text stands in the text.
proof fn lemma_stands_in_untrimmed(s: Seq<char>, pattern: Seq<char>)
    ensures
        occurs(trimmed(s), pattern) ==> occurs(s, pattern),
{
    if occurs(trimmed(s), pattern) {
        let (before, after) = crate::text::lemma_trimmed_parts(s);
        let at = choose|at: int| occurs_at(trimmed(s), pattern, at);
        let there = before.len() + at;
        assert(s.subrange(there, there + pattern.len()) =~= trimmed(s).subrange(
            at,
            at + pattern.len(),
        ));
        assert(occurs_at(s, pattern, there));
    }
}

/// The path that the control tool reports is one of a video device, and one is found wherever a word
/// of some line begins like one.
pub proof fn lemma_reported_path(line: Seq<char>)
    ensures
        reported_path(line) matches Some(path) ==> "/dev/video"@.is_prefix_of(path),
        reported_path(line) is None ==> forall|i: int|
            0 <= i < words_of(trimmed(line)).len() ==> !"/dev/video"@.is_prefix_of(
                #[trigger] words_of(trimmed(line))[i],
            ),
{
    let words = words_of(trimmed(line));
    let p = begins_with("/dev/video"@);
    crate::split::lemma_first_found(words, p);
    if reported_path(line) is None {
        assert forall|i: int| 0 <= i < words.len() implies !"/dev/video"@.is_prefix_of(
            #[trigger] words[i],
        ) by {
            assert(!p(words[i]));
        }
    }
}

/// The output of the control tool gives the path of its first line that reports one.
pub proof fn lemma_first_reported_path(output: Seq<char>, at: int)
    requires
        0 <= at < lines_of(output).len(),
        reported_path(lines_of(output)[at]) is Some,
        forall|i: int|
            0 <= i < at ==> reported_path(#[trigger] lines_of(output)[i]) is None,
    ensures
        first_reported_path(output) == reported_path(lines_of(output)[at]),
{
    crate::split::lemma_first_where(lines_of(output), reports_path(), at);
}

} // verus!
