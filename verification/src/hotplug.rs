//! Kernel messages about video devices that come and go.
use vstd::prelude::*;
use vstd::utf8::{decode_utf8, valid_utf8};

use crate::error::IoKind;
use crate::split::{
    bytes_of, split_once, split_once_on, split_zero, utf8_text, zero_separated,
};
use crate::table::Table;
use crate::text::{contains, occurs, opt_text, str_eq};

verus! {

/// How long the monitor stays quiet after a notification, in nanoseconds: 200 ms.
pub const HOTPLUG_DEBOUNCE_NS: u64 = 200_000_000;

/// A kernel message about a device.
#[derive(Debug)]
pub struct Uevent {
    pub action: String,
    pub devpath: String,
    pub subsystem: String,
    pub devname: Option<String>,
    pub name: Option<String>,
}

/// The contents of a message.
#[verifier::ext_equal]
pub ghost struct UeventModel {
    pub action: Seq<char>,
    pub devpath: Seq<char>,
    pub subsystem: Seq<char>,
    pub devname: Option<Seq<char>>,
    pub name: Option<Seq<char>>,
}

impl View for Uevent {
    type V = UeventModel;

    open spec fn view(&self) -> UeventModel {
        UeventModel {
            action: self.action@,
            devpath: self.devpath@,
            subsystem: self.subsystem@,
            devname: opt_text(self.devname),
            name: opt_text(self.name),
        }
    }
}

/// The properties with those of one more line: `key=value`, or `action@path`.
pub open spec fn with_line(props: Map<Seq<char>, Seq<char>>, line: Seq<char>) -> Map<
    Seq<char>,
    Seq<char>,
> {
    match split_once_on(line, '=') {
        Some((key, value)) => props.insert(key, value),
        None => match split_once_on(line, '@') {
            Some((action, devpath)) => props.insert("ACTION"@, action).insert("DEVPATH"@, devpath),
            None => props,
        },
    }
}

/// The properties that the first `n` lines of a message give; a later line overrides an earlier one.
pub open spec fn properties(lines: Seq<Seq<u8>>, n: int) -> Map<Seq<char>, Seq<char>>
    decreases n,
{
    if n <= 0 {
        Map::empty()
    } else {
        with_line(properties(lines, n - 1), decode_utf8(lines[n - 1]))
    }
}

/// A line `key=value` gives the property, whatever an earlier line gave; a line `action@path` gives the
/// action and the device path; and neither changes any other property.
pub proof fn lemma_line_gives_property(
    props: Map<Seq<char>, Seq<char>>,
    key: Seq<char>,
    value: Seq<char>,
    other: Seq<char>,
)
    requires
        !key.contains('='),
    ensures
        with_line(props, key + seq!['='] + value).contains_key(key),
        with_line(props, key + seq!['='] + value)[key] == value,
        other != key ==> (with_line(props, key + seq!['='] + value).contains_key(other)
            <==> props.contains_key(other)) && (props.contains_key(other) ==> with_line(
            props,
            key + seq!['='] + value,
        )[other] == props[other]),
        !key.contains('@') && !value.contains('=') ==> {
            let after = with_line(props, key + seq!['@'] + value);
            &&& after.contains_key("ACTION"@) && after["ACTION"@] == key
            &&& after.contains_key("DEVPATH"@) && after["DEVPATH"@] == value
            &&& other != "ACTION"@ && other != "DEVPATH"@ ==> (after.contains_key(other)
                <==> props.contains_key(other)) && (props.contains_key(other) ==> after[other]
                == props[other])
        },
        !key.contains('@') ==> with_line(props, key) == props,
{
    crate::split::lemma_split_once(key, '=', value);
    if !key.contains('@') {
        crate::split::lemma_split_once(key, '@', value);
        if !value.contains('=') {
            let line = key + seq!['@'] + value;
            assert(!line.contains('=')) by {
                if line.contains('=') {
                    let i = choose|i: int| 0 <= i < line.len() && line[i] == '=';
                    if i < key.len() {
                        assert(key[i] == '=');
                    } else if i > key.len() {
                        assert(value[i - key.len() - 1] == '=');
                    }
                }
            }
            crate::split::lemma_split_once(line, '=', value);
            reveal_strlit("ACTION");
            reveal_strlit("DEVPATH");
            assert("ACTION"@.len() != "DEVPATH"@.len());
        }
    }
}

/// Each line of a message adds to what the lines before it gave.
pub proof fn lemma_lines_add_up(lines: Seq<Seq<u8>>, line: Seq<char>)
    ensures
        properties(lines, 0) == Map::<Seq<char>, Seq<char>>::empty(),
        properties(
            lines.push(vstd::utf8::encode_utf8(line)),
            lines.len() as int + 1,
        ) == with_line(properties(lines, lines.len() as int), line),
{
    let longer = lines.push(vstd::utf8::encode_utf8(line));
    vstd::utf8::encode_utf8_decode_utf8(line);
    lemma_same_lines(lines, longer, lines.len() as int);
}

proof fn lemma_same_lines(a: Seq<Seq<u8>>, b: Seq<Seq<u8>>, n: int)
    requires
        0 <= n <= a.len(),
        n <= b.len(),
        forall|i: int| 0 <= i < n ==> #[trigger] a[i] == b[i],
    ensures
        properties(a, n) == properties(b, n),
    decreases n,
{
    if n > 0 {
        lemma_same_lines(a, b, n - 1);
        assert(a[n - 1] == b[n - 1]);
    }
}

/// A property of a message.
pub open spec fn property(props: Map<Seq<char>, Seq<char>>, key: Seq<char>) -> Option<Seq<char>> {
    if props.contains_key(key) {
        Some(props[key])
    } else {
        None
    }
}

/// Every line is text.
pub open spec fn all_text(lines: Seq<Seq<u8>>) -> bool {
    forall|i: int| 0 <= i < lines.len() ==> valid_utf8(#[trigger] lines[i])
}

/// The message that the bytes hold: lines of text, separated by zeros, with an action and a device
/// path among them.
pub open spec fn event_of(buf: Seq<u8>) -> Option<UeventModel> {
    let lines = zero_separated(buf);
    let props = properties(lines, lines.len() as int);
    if !all_text(lines) {
        None
    } else {
        match (property(props, "ACTION"@), property(props, "DEVPATH"@)) {
            (Some(action), Some(devpath)) => Some(
                UeventModel {
                    action,
                    devpath,
                    subsystem: match property(props, "SUBSYSTEM"@) {
                        Some(subsystem) => subsystem,
                        None => Seq::empty(),
                    },
                    devname: property(props, "DEVNAME"@),
                    name: property(props, "NAME"@),
                },
            ),
            _ => None,
        }
    }
}

/// Bytes hold a message exactly when all of their lines are text and among them are an action and a
/// device path; the message shows these, and the other properties as far as they are there.
pub proof fn lemma_message_shows_properties(buf: Seq<u8>)
    ensures
        ({
            let lines = zero_separated(buf);
            let props = properties(lines, lines.len() as int);
            &&& event_of(buf) is Some <==> (forall|i: int|
                0 <= i < lines.len() ==> valid_utf8(#[trigger] lines[i])) && props.contains_key(
                "ACTION"@,
            ) && props.contains_key("DEVPATH"@)
            &&& event_of(buf) matches Some(event) ==> {
                &&& event.action == props["ACTION"@]
                &&& event.devpath == props["DEVPATH"@]
                &&& props.contains_key("SUBSYSTEM"@) ==> event.subsystem == props["SUBSYSTEM"@]
                &&& !props.contains_key("SUBSYSTEM"@) ==> event.subsystem.len() == 0
                &&& props.contains_key("DEVNAME"@) ==> event.devname == Some(props["DEVNAME"@])
                &&& !props.contains_key("DEVNAME"@) ==> event.devname is None
                &&& props.contains_key("NAME"@) ==> event.name == Some(props["NAME"@])
                &&& !props.contains_key("NAME"@) ==> event.name is None
            }
        }),
{
}

/// The texts of a table.
spec fn table_texts(table: Map<Seq<char>, String>) -> Map<Seq<char>, Seq<char>> {
    table.map_values(|text: String| text@)
}

fn get_property(table: &Table<String>, key: &str) -> (r: Option<String>)
    ensures
        opt_text(r) == property(table_texts(table@), key@),
{
    match table.get(key) {
        Some(text) => Some(text.clone()),
        None => None,
    }
}

/// Reads a kernel message.
pub fn parse_uevent(buf: &[u8]) -> (r: Option<Uevent>)
    ensures
        match r {
            Some(event) => event_of(buf@) == Some(event@),
            None => event_of(buf@) is None,
        },
{
    let chunks = split_zero(buf);
    let ghost lines = zero_separated(buf@);
    assert(chunks@.map_values(bytes_of()).len() == chunks@.len());
    let mut props: Table<String> = Table::new();
    let mut i: usize = 0;
    assert(table_texts(props@) =~= Map::<Seq<char>, Seq<char>>::empty());
    while i < chunks.len()
        invariant
            i <= chunks@.len(),
            lines == zero_separated(buf@),
            chunks@.map_values(bytes_of()) == lines,
            lines.len() == chunks@.len(),
            table_texts(props@) == properties(lines, i as int),
            forall|j: int| 0 <= j < i ==> valid_utf8(#[trigger] lines[j]),
        decreases chunks@.len() - i,
    {
        assert(lines[i as int] == chunks@[i as int]@);
        let ghost before = props@;
        let line = match utf8_text(chunks[i].as_slice()) {
            Some(line) => line,
            None => {
                assert(!valid_utf8(lines[i as int]));
                return None;
            },
        };
        match split_once(&line, '=') {
            Some((key, value)) => {
                let ghost k = key@;
                let ghost v = value@;
                props.insert(key, value);
                assert(table_texts(props@) =~= table_texts(before).insert(k, v));
            },
            None => {
                if let Some((action, devpath)) = split_once(&line, '@') {
                    let ghost a = action@;
                    let ghost d = devpath@;
                    props.insert("ACTION".to_string(), action);
                    props.insert("DEVPATH".to_string(), devpath);
                    assert(table_texts(props@) =~= table_texts(before).insert("ACTION"@, a).insert(
                        "DEVPATH"@,
                        d,
                    ));
                }
            },
        }
        i += 1;
    }
    let action = match get_property(&props, "ACTION") {
        Some(action) => action,
        None => {
            return None;
        },
    };
    let devpath = match get_property(&props, "DEVPATH") {
        Some(devpath) => devpath,
        None => {
            return None;
        },
    };
    let subsystem = match get_property(&props, "SUBSYSTEM") {
        Some(subsystem) => subsystem,
        None => String::new(),
    };
    let event = Uevent {
        action,
        devpath,
        subsystem,
        devname: get_property(&props, "DEVNAME"),
        name: get_property(&props, "NAME"),
    };
    proof {
        if property(table_texts(props@), "SUBSYSTEM"@) is None {
            assert(event.subsystem@ =~= Seq::<char>::empty());
        }
    }
    Some(event)
}

/// The message is about a physical video device that came, went or changed.
pub open spec fn is_camera_event(event: UeventModel) -> bool {
    &&& event.subsystem == "video4linux"@
    &&& event.action == "add"@ || event.action == "remove"@ || event.action == "change"@
    &&& !occurs(event.devpath, "/virtual/"@)
    &&& !(event.name matches Some(name) && (occurs(name, "Linux Std"@) || occurs(
        name,
        "Linux Standardized"@,
    )))
}

/// Whether the message is about a physical video device that came, went or changed.
pub fn should_react_to_uevent(event: &Uevent) -> (r: bool)
    ensures
        r == is_camera_event(event@),
{
    if !str_eq(&event.subsystem, "video4linux") {
        return false;
    }
    if !(str_eq(&event.action, "add") || str_eq(&event.action, "remove") || str_eq(
        &event.action,
        "change",
    )) {
        return false;
    }
    if contains(&event.devpath, "/virtual/") {
        return false;
    }
    if let Some(name) = &event.name {
        if contains(name, "Linux Std") || contains(name, "Linux Standardized") {
            return false;
        }
    }
    true
}

/// What to do after a read from the message socket.
#[derive(Debug, Clone, Copy, PartialEq, Eq, Structural)]
pub enum ReadStep {
    /// Take the message.
    Take(usize),
    /// Read once more.
    Again,
    /// Wait until there is something to read.
    Wait,
}

/// What follows on a read.
pub open spec fn after_read(result: Result<usize, IoKind>) -> ReadStep {
    match result {
        Ok(n) => if n == 0 {
            ReadStep::Wait
        } else {
            ReadStep::Take(n)
        },
        Err(IoKind::Interrupted) => ReadStep::Again,
        Err(_) => ReadStep::Wait,
    }
}

/// All bytes that were read are taken, a read that was interrupted is made again, and in every other
/// case the monitor waits.
pub proof fn lemma_read_is_taken(n: usize, kind: IoKind)
    ensures
        n > 0 ==> after_read(Ok(n)) == ReadStep::Take(n),
        after_read(Ok(0)) == ReadStep::Wait,
        after_read(Err(kind)) == ReadStep::Again <==> kind == IoKind::Interrupted,
        !(after_read(Err(kind)) is Take),
{
}

/// What to do after a read: it gave a number of bytes, or failed.
pub fn read_step(result: Result<usize, IoKind>) -> (r: ReadStep)
    ensures
        r == after_read(result),
        r == match result {
            Ok(n) => if n == 0 {
                ReadStep::Wait
            } else {
                ReadStep::Take(n)
            },
            Err(IoKind::Interrupted) => ReadStep::Again,
            Err(_) => ReadStep::Wait,
        },
{
    match result {
        Ok(n) => if n == 0 {
            ReadStep::Wait
        } else {
            ReadStep::Take(n)
        },
        Err(kind) => match kind {
            IoKind::Interrupted => ReadStep::Again,
            _ => ReadStep::Wait,
        },
    }
}

/// The monitor of kernel messages. It knows when it last notified, on a clock in nanoseconds.
#[derive(Debug)]
pub struct HotplugMonitor {
    pub last_notify_ns: Option<u64>,
}

/// The monitor may notify: it has been quiet for long enough.
pub open spec fn is_quiet(last_notify_ns: Option<u64>, now_ns: u64) -> bool {
    match last_notify_ns {
        Some(last) => now_ns >= last && now_ns - last >= HOTPLUG_DEBOUNCE_NS,
        None => true,
    }
}

/// A message makes the monitor notify: it is about a camera, and the monitor may notify.
pub open spec fn notifies(last_notify_ns: Option<u64>, buf: Seq<u8>, now_ns: u64) -> bool {
    (event_of(buf) matches Some(event) && is_camera_event(event)) && is_quiet(
        last_notify_ns,
        now_ns,
    )
}

/// When the monitor last notified, after a message.
pub open spec fn notified_after(last_notify_ns: Option<u64>, buf: Seq<u8>, now_ns: u64) -> Option<
    u64,
> {
    if notifies(last_notify_ns, buf, now_ns) {
        Some(now_ns)
    } else {
        last_notify_ns
    }
}

impl HotplugMonitor {
    /// A monitor that notifies at the first message about a camera.
    pub fn new() -> (r: Self)
        ensures
            r.last_notify_ns is None,
    {
        HotplugMonitor { last_notify_ns: None }
    }

    /// Takes a message. Whether to notify.
    pub fn take(&mut self, buf: &[u8], now_ns: u64) -> (r: bool)
        ensures
            r == notifies(old(self).last_notify_ns, buf@, now_ns),
            final(self).last_notify_ns == notified_after(old(self).last_notify_ns, buf@, now_ns),
            match event_of(buf@) {
                Some(event) => r <==> {
                    &&& event.subsystem == "video4linux"@
                    &&& event.action == "add"@ || event.action == "remove"@ || event.action
                        == "change"@
                    &&& !occurs(event.devpath, "/virtual/"@)
                    &&& !(event.name matches Some(name) && (occurs(name, "Linux Std"@) || occurs(
                        name,
                        "Linux Standardized"@,
                    )))
                    &&& !(old(self).last_notify_ns matches Some(last) && now_ns < last
                        + 200_000_000)
                },
                None => !r,
            },
            final(self).last_notify_ns == if r {
                Some(now_ns)
            } else {
                old(self).last_notify_ns
            },
    {
        let event = match parse_uevent(buf) {
            Some(event) => event,
            None => {
                return false;
            },
        };
        if !should_react_to_uevent(&event) {
            return false;
        }
        if let Some(last) = self.last_notify_ns {
            if now_ns < last || now_ns - last < HOTPLUG_DEBOUNCE_NS {
                return false;
            }
        }
        self.last_notify_ns = Some(now_ns);
        true
    }
}

/// When a monitor last notified, after the first `n` of a series of messages.
pub open spec fn notified_by(inputs: Seq<(Seq<u8>, u64)>, n: int) -> Option<u64>
    decreases n,
{
    if n <= 0 {
        None
    } else {
        notified_after(notified_by(inputs, n - 1), inputs[n - 1].0, inputs[n - 1].1)
    }
}

/// Message `i` of a series makes the monitor notify.
pub open spec fn notifies_at(inputs: Seq<(Seq<u8>, u64)>, i: int) -> bool {
    notifies(notified_by(inputs, i), inputs[i].0, inputs[i].1)
}

/// Two notifications are at least 200 ms apart, however many messages come in.
pub proof fn lemma_notifications_are_spaced(inputs: Seq<(Seq<u8>, u64)>, i: int, j: int)
    requires
        0 <= i < j < inputs.len(),
        forall|a: int, b: int|
            0 <= a < b < inputs.len() ==> (#[trigger] inputs[a]).1 <= (#[trigger] inputs[b]).1,
        notifies_at(inputs, i),
        notifies_at(inputs, j),
    ensures
        inputs[j].1 - inputs[i].1 >= HOTPLUG_DEBOUNCE_NS,
{
    lemma_last_notification(inputs, i, j);
}

proof fn lemma_last_notification(inputs: Seq<(Seq<u8>, u64)>, i: int, n: int)
    requires
        0 <= i < n <= inputs.len(),
        forall|a: int, b: int|
            0 <= a < b < inputs.len() ==> (#[trigger] inputs[a]).1 <= (#[trigger] inputs[b]).1,
        notifies_at(inputs, i),
    ensures
        notified_by(inputs, n) matches Some(last) && last >= inputs[i].1,
    decreases n,
{
    if n - 1 > i {
        lemma_last_notification(inputs, i, n - 1);
        assert(inputs[i].1 <= inputs[n - 1].1);
    }
}

/// A message about a physical video device that came, went or changed makes the monitor notify,
/// unless it has notified within the last 200 ms; and then it has notified now. No other message
/// does.
pub proof fn lemma_camera_messages_notify(
    last_notify_ns: Option<u64>,
    buf: Seq<u8>,
    now_ns: u64,
    event: UeventModel,
)
    requires
        event_of(buf) == Some(event),
    ensures
        ({
            let about_a_camera = {
                &&& event.subsystem == "video4linux"@
                &&& event.action == "add"@ || event.action == "remove"@ || event.action
                    == "change"@
                &&& !occurs(event.devpath, "/virtual/"@)
                &&& !(event.name matches Some(name) && (occurs(name, "Linux Std"@) || occurs(
                    name,
                    "Linux Standardized"@,
                )))
            };
            let too_soon = last_notify_ns matches Some(last) && now_ns < last + 200_000_000;
            &&& notifies(last_notify_ns, buf, now_ns) <==> about_a_camera && !too_soon
            &&& about_a_camera && !too_soon ==> notified_after(last_notify_ns, buf, now_ns) == Some(
                now_ns,
            )
            &&& too_soon || !about_a_camera ==> notified_after(last_notify_ns, buf, now_ns)
                == last_notify_ns
        }),
{
}

/// In a series of messages none about a camera is passed over, unless the monitor has notified
/// within the 200 ms before it.
pub proof fn lemma_no_camera_is_missed(inputs: Seq<(Seq<u8>, u64)>, j: int, event: UeventModel)
    requires
        0 <= j < inputs.len(),
        event_of(inputs[j].0) == Some(event),
        event.subsystem == "video4linux"@,
        event.action == "add"@ || event.action == "remove"@ || event.action == "change"@,
        !occurs(event.devpath, "/virtual/"@),
        event.name is None,
    ensures
        notifies_at(inputs, j) || exists|i: int|
            {
                &&& 0 <= i < j
                &&& #[trigger] notifies_at(inputs, i)
                &&& inputs[j].1 < inputs[i].1 + 200_000_000
            },
{
    lemma_camera_messages_notify(notified_by(inputs, j), inputs[j].0, inputs[j].1, event);
    if notified_by(inputs, j) is Some {
        let i = lemma_last_notification_is_one(inputs, j);
        assert(notifies_at(inputs, i));
    }
}

proof fn lemma_last_notification_is_one(inputs: Seq<(Seq<u8>, u64)>, n: int) -> (r: int)
    requires
        0 <= n <= inputs.len(),
        notified_by(inputs, n) is Some,
    ensures
        0 <= r < n,
        notifies_at(inputs, r),
        notified_by(inputs, n) == Some(inputs[r].1),
    decreases n,
{
    if notifies_at(inputs, n - 1) {
        n - 1
    } else {
        lemma_last_notification_is_one(inputs, n - 1)
    }
}

} // verus!
