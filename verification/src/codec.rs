//! The exported form of a rule set. A file is the four bytes `DSRK`, a
//! version byte, and then one frame for each rule: the length of the frame's
//! body in eight bytes, least significant first, and the body. A body is a
//! run of fields, each a tag byte, the length of its value in eight bytes,
//! and the value. A reader skips the fields whose tags it does not know.

use crate::address::IpNet;
use crate::record::{text_view, RuleAction, RuleOrigin, RuleRecord, RuleRecordView};
use vstd::bytes::{
    spec_u128_to_le_bytes, spec_u32_to_le_bytes, spec_u64_to_le_bytes, u128_to_le_bytes,
    u32_to_le_bytes, u64_to_le_bytes,
};
use vstd::prelude::*;
use vstd::string::*;
use vstd::utf8::encode_utf8;

verus! {

/// The version that this library writes.
pub const FORMAT_VERSION: u8 = 1;

/// The tag of the address: the bytes of the address, least significant
/// first, and the prefix length.
pub const TAG_IP: u8 = 1;

/// The tag of the action: 0 for block, 1 for allow.
pub const TAG_ACTION: u8 = 2;

/// The tag of the reason: text in UTF-8.
pub const TAG_REASON: u8 = 3;

/// The tag of the origin: 0 for manual, 1 for imported.
pub const TAG_ORIGIN: u8 = 4;

/// The tag of the time of creation: eight bytes, least significant first.
pub const TAG_CREATED: u8 = 5;

/// The tag of the deadline: eight bytes, least significant first.
pub const TAG_EXPIRES: u8 = 6;

/// A rule as a file holds it.
#[derive(Clone, Debug, PartialEq, Eq)]
pub struct RuleEntry {
    pub ip: IpNet,
    pub action: RuleAction,
    pub reason: Option<String>,
    pub origin: RuleOrigin,
    pub created_at: u64,
    pub expires_at: Option<u64>,
}

/// A rule of a file as contracts speak of it.
pub struct RuleEntryView {
    pub ip: IpNet,
    pub action: RuleAction,
    pub reason: Option<Seq<char>>,
    pub origin: RuleOrigin,
    pub created_at: u64,
    pub expires_at: Option<u64>,
}

impl View for RuleEntry {
    type V = RuleEntryView;

    open spec fn view(&self) -> RuleEntryView {
        RuleEntryView {
            ip: self.ip,
            action: self.action,
            reason: text_view(self.reason),
            origin: self.origin,
            created_at: self.created_at,
            expires_at: self.expires_at,
        }
    }
}

/// The views of a sequence of entries.
pub open spec fn entries_view(entries: Seq<RuleEntry>) -> Seq<RuleEntryView> {
    Seq::new(entries.len(), |i: int| entries[i]@)
}

/// What of a record goes into a file.
pub open spec fn entry_of(record: RuleRecordView) -> RuleEntryView {
    RuleEntryView {
        ip: record.ip,
        action: record.action,
        reason: record.reason,
        origin: record.origin,
        created_at: record.created_at,
        expires_at: record.expires_at,
    }
}

/// What of each record goes into a file.
pub open spec fn entries_of(records: Seq<RuleRecordView>) -> Seq<RuleEntryView> {
    Seq::new(records.len(), |i: int| entry_of(records[i]))
}

/// Why an entry of a file was skipped.
#[derive(Clone, Copy, Debug, PartialEq, Eq, Structural)]
pub enum EntryFault {
    /// A field runs past the end of the entry.
    Truncated,
    /// The entry lacks the field of this tag.
    Missing(u8),
    /// The field of this tag holds no value of its kind.
    Invalid(u8),
}

/// An entry that was skipped: which one, counting from 0, and why.
#[derive(Clone, Copy, Debug, PartialEq, Eq, Structural)]
pub struct ImportWarning {
    pub index: usize,
    pub fault: EntryFault,
}

/// Why a file could not be read at all.
#[derive(Clone, Copy, Debug, PartialEq, Eq, Structural)]
pub enum FormatError {
    /// The file does not start with `DSRK`.
    BadMagic,
    /// The version byte is 0.
    BadVersion,
    /// A frame runs past the end of the file.
    Truncated,
}

/// The code of an action.
pub open spec fn action_code(action: RuleAction) -> u8 {
    match action {
        RuleAction::Block => 0,
        RuleAction::Allow => 1,
    }
}

/// The code of an origin.
pub open spec fn origin_code(origin: RuleOrigin) -> u8 {
    match origin {
        RuleOrigin::Manual => 0,
        RuleOrigin::Imported => 1,
    }
}

/// The bytes of an address: the address itself, least significant byte
/// first, and the prefix length. An IPv4 address takes five bytes, an IPv6
/// address seventeen.
pub open spec fn ip_bytes(ip: IpNet) -> Seq<u8> {
    match ip {
        IpNet::V4(net) => spec_u32_to_le_bytes(net.addr).push(net.prefix),
        IpNet::V6(net) => spec_u128_to_le_bytes(net.addr).push(net.prefix),
    }
}

/// One field: its tag, the length of its value, and the value.
pub open spec fn field(tag: u8, value: Seq<u8>) -> Seq<u8> {
    seq![tag] + spec_u64_to_le_bytes(value.len() as u64) + value
}

/// A field that may be absent.
pub open spec fn optional_field(tag: u8, value: Option<Seq<u8>>) -> Seq<u8> {
    match value {
        Some(v) => field(tag, v),
        None => Seq::empty(),
    }
}

/// The bytes of an optional text.
pub open spec fn text_bytes(text: Option<Seq<char>>) -> Option<Seq<u8>> {
    match text {
        Some(t) => Some(encode_utf8(t)),
        None => None,
    }
}

/// The bytes of an optional time.
pub open spec fn time_bytes(time: Option<u64>) -> Option<Seq<u8>> {
    match time {
        Some(t) => Some(spec_u64_to_le_bytes(t)),
        None => None,
    }
}

/// The body of the frame of an entry: its fields in the order of their tags.
pub open spec fn encode_entry(e: RuleEntryView) -> Seq<u8> {
    field(TAG_IP, ip_bytes(e.ip)) + field(TAG_ACTION, seq![action_code(e.action)])
        + optional_field(TAG_REASON, text_bytes(e.reason)) + field(
        TAG_ORIGIN,
        seq![origin_code(e.origin)],
    ) + field(TAG_CREATED, spec_u64_to_le_bytes(e.created_at)) + optional_field(
        TAG_EXPIRES,
        time_bytes(e.expires_at),
    )
}

/// A frame: the length of the body, and the body.
pub open spec fn frame(body: Seq<u8>) -> Seq<u8> {
    spec_u64_to_le_bytes(body.len() as u64) + body
}

/// The frames of a sequence of entries, one after the other.
pub open spec fn encode_entries(entries: Seq<RuleEntryView>) -> Seq<u8>
    decreases entries.len(),
{
    if entries.len() == 0 {
        Seq::empty()
    } else {
        encode_entries(entries.drop_last()) + frame(encode_entry(entries.last()))
    }
}

/// What a file starts with.
pub open spec fn header() -> Seq<u8> {
    seq![0x44u8, 0x53u8, 0x52u8, 0x4bu8, FORMAT_VERSION]
}

/// The file of a sequence of entries.
pub open spec fn spec_export(entries: Seq<RuleEntryView>) -> Seq<u8> {
    header() + encode_entries(entries)
}

/// Appends `bytes` to `out`.
fn append_bytes(out: &mut Vec<u8>, bytes: &[u8])
    ensures
        final(out)@ == old(out)@ + bytes@,
{
    let mut i: usize = 0;
    while i < bytes.len()
        invariant
            i <= bytes@.len(),
            out@ == old(out)@ + bytes@.take(i as int),
        decreases bytes@.len() - i,
    {
        out.push(bytes[i]);
        i = i + 1;
        assert(out@ =~= old(out)@ + bytes@.take(i as int));
    }
    assert(bytes@.take(i as int) =~= bytes@);
}

/// Appends a field to `out`.
fn put_field(out: &mut Vec<u8>, tag: u8, value: &[u8])
    ensures
        final(out)@ == old(out)@ + field(tag, value@),
{
    out.push(tag);
    let len = u64_to_le_bytes(value.len() as u64);
    append_bytes(out, len.as_slice());
    append_bytes(out, value);
    assert(out@ =~= old(out)@ + field(tag, value@));
}

/// The body of the frame of an entry.
fn encode_one(entry: &RuleEntry) -> (r: Vec<u8>)
    ensures
        r@ == encode_entry(entry@),
{
    let mut out: Vec<u8> = Vec::new();
    let mut ip = match entry.ip {
        IpNet::V4(net) => {
            let mut bytes = u32_to_le_bytes(net.addr);
            bytes.push(net.prefix);
            bytes
        },
        IpNet::V6(net) => {
            let mut bytes = u128_to_le_bytes(net.addr);
            bytes.push(net.prefix);
            bytes
        },
    };
    put_field(&mut out, TAG_IP, ip.as_slice());
    let action: u8 = match entry.action {
        RuleAction::Block => 0,
        RuleAction::Allow => 1,
    };
    let mut one: Vec<u8> = Vec::new();
    one.push(action);
    assert(one@ =~= seq![action_code(entry.action)]);
    put_field(&mut out, TAG_ACTION, one.as_slice());
    match &entry.reason {
        Some(text) => {
            put_field(&mut out, TAG_REASON, text.as_str().as_bytes());
        },
        None => {},
    }
    let origin: u8 = match entry.origin {
        RuleOrigin::Manual => 0,
        RuleOrigin::Imported => 1,
    };
    let mut two: Vec<u8> = Vec::new();
    two.push(origin);
    assert(two@ =~= seq![origin_code(entry.origin)]);
    put_field(&mut out, TAG_ORIGIN, two.as_slice());
    let created = u64_to_le_bytes(entry.created_at);
    put_field(&mut out, TAG_CREATED, created.as_slice());
    match entry.expires_at {
        Some(t) => {
            let expires = u64_to_le_bytes(t);
            put_field(&mut out, TAG_EXPIRES, expires.as_slice());
        },
        None => {},
    }
    assert(out@ =~= encode_entry(entry@));
    out
}

/// Writes a rule set as a file.
pub fn encode_rules(entries: &Vec<RuleEntry>) -> (r: Vec<u8>)
    ensures
        r@ == spec_export(entries_view(entries@)),
{
    let ghost all = entries_view(entries@);
    let mut out: Vec<u8> = Vec::new();
    out.push(0x44);
    out.push(0x53);
    out.push(0x52);
    out.push(0x4b);
    out.push(FORMAT_VERSION);
    assert(out@ =~= header());
    assert(encode_entries(all.take(0)) =~= Seq::<u8>::empty());
    let mut i: usize = 0;
    while i < entries.len()
        invariant
            i <= entries@.len(),
            all == entries_view(entries@),
            out@ == header() + encode_entries(all.take(i as int)),
        decreases entries@.len() - i,
    {
        let body = encode_one(&entries[i]);
        let len = u64_to_le_bytes(body.len() as u64);
        proof {
            let next = all.take(i + 1);
            assert(next.drop_last() =~= all.take(i as int));
            assert(next.last() == entries@[i as int]@);
        }
        append_bytes(&mut out, len.as_slice());
        append_bytes(&mut out, body.as_slice());
        i = i + 1;
        assert(out@ =~= header() + encode_entries(all.take(i as int)));
    }
    assert(all.take(i as int) =~= all);
    out
}

/// What of a record goes into a file.
pub fn entry_from_record(record: &RuleRecord) -> (r: RuleEntry)
    ensures
        r@ == entry_of(record@),
{
    RuleEntry {
        ip: record.ip,
        action: record.action,
        reason: crate::record::copy_text(&record.reason),
        origin: record.origin,
        created_at: record.created_at,
        expires_at: record.expires_at,
    }
}

/// Writes a snapshot of the store as a file.
pub fn export_snapshot(snapshot: &Vec<RuleRecord>) -> (r: Vec<u8>)
    ensures
        r@ == spec_export(entries_of(crate::record::records_view(snapshot@))),
{
    let mut entries: Vec<RuleEntry> = Vec::new();
    let mut i: usize = 0;
    while i < snapshot.len()
        invariant
            i <= snapshot@.len(),
            entries@.len() == i,
            forall|j: int| 0 <= j < i ==> (#[trigger] entries@[j])@ == entry_of(snapshot@[j]@),
        decreases snapshot@.len() - i,
    {
        entries.push(entry_from_record(&snapshot[i]));
        i = i + 1;
    }
    assert(entries_view(entries@) =~= entries_of(crate::record::records_view(snapshot@)));
    encode_rules(&entries)
}

} // verus!
