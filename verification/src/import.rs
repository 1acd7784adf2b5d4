//! Reading a rule set back from its exported form. A file whose frames do
//! not add up is refused as a whole; an entry that cannot be read is skipped
//! with a warning and the rest is read.

use crate::address::IpNet;
use crate::codec::{
    entries_view, EntryFault, FormatError, ImportWarning, RuleEntry, RuleEntryView, TAG_ACTION,
    TAG_CREATED, TAG_EXPIRES, TAG_IP, TAG_ORIGIN, TAG_REASON,
};
use crate::ipv4::Ip4Net;
use crate::ipv6::Ip6Net;
use crate::record::{text_view, RuleAction, RuleOrigin};
use vstd::bytes::{
    spec_u128_from_le_bytes, spec_u32_from_le_bytes, spec_u64_from_le_bytes, u128_from_le_bytes,
    u32_from_le_bytes, u64_from_le_bytes,
};
use vstd::prelude::*;
use vstd::slice::slice_subrange;
use vstd::utf8::{decode_utf8, valid_utf8};

verus! {

/// What has been read of an entry so far.
pub struct PartialView {
    pub ip: Option<IpNet>,
    pub action: Option<RuleAction>,
    pub reason: Option<Seq<char>>,
    pub origin: Option<RuleOrigin>,
    pub created_at: Option<u64>,
    pub expires_at: Option<u64>,
    /// The first fault met.
    pub fault: Option<EntryFault>,
}

/// An entry of which nothing has been read.
pub open spec fn blank() -> PartialView {
    PartialView {
        ip: None,
        action: None,
        reason: None,
        origin: None,
        created_at: None,
        expires_at: None,
        fault: None,
    }
}

/// The partial entry with `fault` noted, unless one was noted before.
pub open spec fn with_fault(p: PartialView, fault: EntryFault) -> PartialView {
    if p.fault is Some {
        p
    } else {
        PartialView { fault: Some(fault), ..p }
    }
}

/// The address that bytes hold: five of them an IPv4 network, seventeen an
/// IPv6 network, where they hold a well-formed one.
pub open spec fn decode_ip(value: Seq<u8>) -> Option<IpNet> {
    if value.len() == 5 {
        let net = Ip4Net { addr: spec_u32_from_le_bytes(value.subrange(0, 4)), prefix: value[4] };
        if net.wf() {
            Some(IpNet::V4(net))
        } else {
            None
        }
    } else if value.len() == 17 {
        let net = Ip6Net {
            addr: spec_u128_from_le_bytes(value.subrange(0, 16)),
            prefix: value[16],
        };
        if net.wf() {
            Some(IpNet::V6(net))
        } else {
            None
        }
    } else {
        None
    }
}

/// The action that one byte holds.
pub open spec fn decode_action(value: Seq<u8>) -> Option<RuleAction> {
    if value.len() == 1 && value[0] == 0 {
        Some(RuleAction::Block)
    } else if value.len() == 1 && value[0] == 1 {
        Some(RuleAction::Allow)
    } else {
        None
    }
}

/// The origin that one byte holds.
pub open spec fn decode_origin(value: Seq<u8>) -> Option<RuleOrigin> {
    if value.len() == 1 && value[0] == 0 {
        Some(RuleOrigin::Manual)
    } else if value.len() == 1 && value[0] == 1 {
        Some(RuleOrigin::Imported)
    } else {
        None
    }
}

/// The time that eight bytes hold.
pub open spec fn decode_time(value: Seq<u8>) -> Option<u64> {
    if value.len() == 8 {
        Some(spec_u64_from_le_bytes(value))
    } else {
        None
    }
}

/// The text that bytes hold, where they are UTF-8.
pub open spec fn decode_text(value: Seq<u8>) -> Option<Seq<char>> {
    if valid_utf8(value) {
        Some(decode_utf8(value))
    } else {
        None
    }
}

/// The partial entry after one more field. A field of a known tag sets its
/// part of the entry, the later of two fields of one tag replacing the
/// earlier; a value that is none of its kind is a fault. A field of an
/// unknown tag changes nothing.
pub open spec fn absorb(p: PartialView, tag: u8, value: Seq<u8>) -> PartialView {
    if p.fault is Some {
        p
    } else if tag == TAG_IP {
        match decode_ip(value) {
            Some(ip) => PartialView { ip: Some(ip), ..p },
            None => with_fault(p, EntryFault::Invalid(tag)),
        }
    } else if tag == TAG_ACTION {
        match decode_action(value) {
            Some(action) => PartialView { action: Some(action), ..p },
            None => with_fault(p, EntryFault::Invalid(tag)),
        }
    } else if tag == TAG_REASON {
        match decode_text(value) {
            Some(text) => PartialView { reason: Some(text), ..p },
            None => with_fault(p, EntryFault::Invalid(tag)),
        }
    } else if tag == TAG_ORIGIN {
        match decode_origin(value) {
            Some(origin) => PartialView { origin: Some(origin), ..p },
            None => with_fault(p, EntryFault::Invalid(tag)),
        }
    } else if tag == TAG_CREATED {
        match decode_time(value) {
            Some(t) => PartialView { created_at: Some(t), ..p },
            None => with_fault(p, EntryFault::Invalid(tag)),
        }
    } else if tag == TAG_EXPIRES {
        match decode_time(value) {
            Some(t) => PartialView { expires_at: Some(t), ..p },
            None => with_fault(p, EntryFault::Invalid(tag)),
        }
    } else {
        p
    }
}

/// The partial entry after the fields of `body` from `pos` on. A field that
/// runs past the end of the body is a fault.
pub open spec fn scan_fields(body: Seq<u8>, pos: int, p: PartialView) -> PartialView
    decreases body.len() - pos,
{
    if pos < 0 || pos >= body.len() {
        p
    } else if body.len() - pos < 9 {
        with_fault(p, EntryFault::Truncated)
    } else {
        let n = spec_u64_from_le_bytes(body.subrange(pos + 1, pos + 9)) as int;
        if n > body.len() - pos - 9 {
            with_fault(p, EntryFault::Truncated)
        } else {
            let value = body.subrange(pos + 9, pos + 9 + n);
            scan_fields(body, pos + 9 + n, absorb(p, body[pos], value))
        }
    }
}

/// The entry that a partial entry amounts to. An entry needs an address, an
/// action, an origin and a time of creation, and only a block has a
/// deadline.
pub open spec fn finish(p: PartialView) -> Result<RuleEntryView, EntryFault> {
    if p.fault is Some {
        Err(p.fault.unwrap())
    } else if p.ip is None {
        Err(EntryFault::Missing(TAG_IP))
    } else if p.action is None {
        Err(EntryFault::Missing(TAG_ACTION))
    } else if p.origin is None {
        Err(EntryFault::Missing(TAG_ORIGIN))
    } else if p.created_at is None {
        Err(EntryFault::Missing(TAG_CREATED))
    } else if p.action == Some(RuleAction::Allow) && p.expires_at is Some {
        Err(EntryFault::Invalid(TAG_EXPIRES))
    } else {
        Ok(
            RuleEntryView {
                ip: p.ip.unwrap(),
                action: p.action.unwrap(),
                reason: p.reason,
                origin: p.origin.unwrap(),
                created_at: p.created_at.unwrap(),
                expires_at: p.expires_at,
            },
        )
    }
}

/// The entry that the body of a frame holds.
pub open spec fn decode_entry(body: Seq<u8>) -> Result<RuleEntryView, EntryFault> {
    finish(scan_fields(body, 0, blank()))
}

/// The bodies of the frames of `bytes` from `pos` on, behind `acc`. `None`
/// where a frame runs past the end of the file.
pub open spec fn scan_frames(bytes: Seq<u8>, pos: int, acc: Seq<Seq<u8>>) -> Option<Seq<Seq<u8>>>
    decreases bytes.len() - pos,
{
    if pos < 0 || pos >= bytes.len() {
        Some(acc)
    } else if bytes.len() - pos < 8 {
        None
    } else {
        let n = spec_u64_from_le_bytes(bytes.subrange(pos, pos + 8)) as int;
        if n > bytes.len() - pos - 8 {
            None
        } else {
            scan_frames(bytes, pos + 8 + n, acc.push(bytes.subrange(pos + 8, pos + 8 + n)))
        }
    }
}

/// What was read of a file: the entries that could be read, in the order of
/// the file, and a warning for each that could not.
pub struct ImportView {
    pub entries: Seq<RuleEntryView>,
    pub warnings: Seq<ImportWarning>,
}

/// What the frames of a file hold.
pub open spec fn collect(frames: Seq<Seq<u8>>) -> ImportView
    decreases frames.len(),
{
    if frames.len() == 0 {
        ImportView { entries: Seq::empty(), warnings: Seq::empty() }
    } else {
        let before = collect(frames.drop_last());
        match decode_entry(frames.last()) {
            Ok(e) => ImportView { entries: before.entries.push(e), ..before },
            Err(fault) => ImportView {
                warnings: before.warnings.push(
                    ImportWarning { index: (frames.len() - 1) as usize, fault },
                ),
                ..before
            },
        }
    }
}

/// The file starts with `DSRK`.
pub open spec fn has_magic(bytes: Seq<u8>) -> bool {
    bytes.len() >= 5 && bytes[0] == 0x44 && bytes[1] == 0x53 && bytes[2] == 0x52 && bytes[3] == 0x4b
}

/// What a file holds. A file of any version from 1 on is read: what a later
/// version adds comes in fields that this one skips.
pub open spec fn spec_import(bytes: Seq<u8>) -> Result<ImportView, FormatError> {
    if !has_magic(bytes) {
        Err(FormatError::BadMagic)
    } else if bytes[4] == 0 {
        Err(FormatError::BadVersion)
    } else {
        match scan_frames(bytes, 5, Seq::empty()) {
            Some(frames) => Ok(collect(frames)),
            None => Err(FormatError::Truncated),
        }
    }
}

/// Scanning takes in no address that is not well-formed.
pub proof fn lemma_scanned_ip(body: Seq<u8>, pos: int, p: PartialView)
    requires
        p.ip matches Some(ip) ==> ip.wf(),
    ensures
        scan_fields(body, pos, p).ip matches Some(ip) ==> ip.wf(),
    decreases body.len() - pos,
{
    if 0 <= pos < body.len() && body.len() - pos >= 9 {
        let n = spec_u64_from_le_bytes(body.subrange(pos + 1, pos + 9)) as int;
        if n <= body.len() - pos - 9 {
            let value = body.subrange(pos + 9, pos + 9 + n);
            lemma_scanned_ip(body, pos + 9 + n, absorb(p, body[pos], value));
        }
    }
}

/// Each entry that was read has a well-formed address.
pub proof fn lemma_collected_ips(frames: Seq<Seq<u8>>)
    ensures
        forall|i: int|
            0 <= i < collect(frames).entries.len() ==> (#[trigger] collect(
                frames,
            ).entries[i]).ip.wf(),
    decreases frames.len(),
{
    if frames.len() > 0 {
        lemma_collected_ips(frames.drop_last());
        lemma_scanned_ip(frames.last(), 0, blank());
    }
}

/// What was read of a file.
#[derive(Debug)]
pub struct Imported {
    /// The entries that could be read, in the order of the file.
    pub entries: Vec<RuleEntry>,
    /// A warning for each entry that was skipped.
    pub warnings: Vec<ImportWarning>,
}

impl View for Imported {
    type V = ImportView;

    open spec fn view(&self) -> ImportView {
        ImportView { entries: entries_view(self.entries@), warnings: self.warnings@ }
    }
}

/// What has been read of an entry so far.
struct Partial {
    ip: Option<IpNet>,
    action: Option<RuleAction>,
    reason: Option<String>,
    origin: Option<RuleOrigin>,
    created_at: Option<u64>,
    expires_at: Option<u64>,
    fault: Option<EntryFault>,
}

impl View for Partial {
    type V = PartialView;

    closed spec fn view(&self) -> PartialView {
        PartialView {
            ip: self.ip,
            action: self.action,
            reason: text_view(self.reason),
            origin: self.origin,
            created_at: self.created_at,
            expires_at: self.expires_at,
            fault: self.fault,
        }
    }
}

/// `std::str::from_utf8`, with the text copied into a `String`: the text
/// that the bytes spell, exactly where they are well-formed UTF-8.
#[verifier::external_body]
fn text_from_utf8(bytes: &[u8]) -> (r: Option<String>)
    ensures
        r is Some <==> valid_utf8(bytes@),
        r matches Some(text) ==> text@ == decode_utf8(bytes@),
{
    match std::str::from_utf8(bytes) {
        Ok(text) => Some(text.to_owned()),
        Err(_) => None,
    }
}

/// Notes a fault unless one was noted before.
fn note_fault(p: Partial, fault: EntryFault) -> (r: Partial)
    ensures
        r@ == with_fault(p@, fault),
{
    if p.fault.is_some() {
        p
    } else {
        Partial { fault: Some(fault), ..p }
    }
}

/// Reads an address from its bytes.
fn read_ip(value: &[u8]) -> (r: Option<IpNet>)
    ensures
        r == decode_ip(value@),
{
    if value.len() == 5 {
        let addr = u32_from_le_bytes(slice_subrange(value, 0, 4));
        let prefix = value[4];
        match Ip4Net::new(addr, prefix) {
            Some(net) => if net.addr == addr {
                Some(IpNet::V4(net))
            } else {
                None
            },
            None => None,
        }
    } else if value.len() == 17 {
        let addr = u128_from_le_bytes(slice_subrange(value, 0, 16));
        let prefix = value[16];
        match Ip6Net::new(addr, prefix) {
            Some(net) => if net.addr == addr {
                Some(IpNet::V6(net))
            } else {
                None
            },
            None => None,
        }
    } else {
        None
    }
}

/// Reads a time from eight bytes.
fn read_time(value: &[u8]) -> (r: Option<u64>)
    ensures
        r == decode_time(value@),
{
    if value.len() != 8 {
        return None;
    }
    Some(u64_from_le_bytes(value))
}

/// Takes one field into a partial entry.
fn absorb_field(p: Partial, tag: u8, value: &[u8]) -> (r: Partial)
    ensures
        r@ == absorb(p@, tag, value@),
{
    if p.fault.is_some() {
        return p;
    }
    if tag == TAG_IP {
        match read_ip(value) {
            Some(ip) => Partial { ip: Some(ip), ..p },
            None => note_fault(p, EntryFault::Invalid(tag)),
        }
    } else if tag == TAG_ACTION {
        if value.len() == 1 && value[0] == 0 {
            Partial { action: Some(RuleAction::Block), ..p }
        } else if value.len() == 1 && value[0] == 1 {
            Partial { action: Some(RuleAction::Allow), ..p }
        } else {
            note_fault(p, EntryFault::Invalid(tag))
        }
    } else if tag == TAG_REASON {
        match text_from_utf8(value) {
            Some(text) => Partial { reason: Some(text), ..p },
            None => note_fault(p, EntryFault::Invalid(tag)),
        }
    } else if tag == TAG_ORIGIN {
        if value.len() == 1 && value[0] == 0 {
            Partial { origin: Some(RuleOrigin::Manual), ..p }
        } else if value.len() == 1 && value[0] == 1 {
            Partial { origin: Some(RuleOrigin::Imported), ..p }
        } else {
            note_fault(p, EntryFault::Invalid(tag))
        }
    } else if tag == TAG_CREATED {
        match read_time(value) {
            Some(t) => Partial { created_at: Some(t), ..p },
            None => note_fault(p, EntryFault::Invalid(tag)),
        }
    } else if tag == TAG_EXPIRES {
        match read_time(value) {
            Some(t) => Partial { expires_at: Some(t), ..p },
            None => note_fault(p, EntryFault::Invalid(tag)),
        }
    } else {
        p
    }
}

/// The entry that a partial entry amounts to.
fn finish_entry(p: Partial) -> (r: Result<RuleEntry, EntryFault>)
    ensures
        match finish(p@) {
            Ok(e) => r matches Ok(entry) && entry@ == e,
            Err(fault) => r == Err::<RuleEntry, EntryFault>(fault),
        },
{
    match p.fault {
        Some(fault) => {
            return Err(fault);
        },
        None => {},
    }
    let ip = match p.ip {
        Some(ip) => ip,
        None => {
            return Err(EntryFault::Missing(TAG_IP));
        },
    };
    let action = match p.action {
        Some(action) => action,
        None => {
            return Err(EntryFault::Missing(TAG_ACTION));
        },
    };
    let origin = match p.origin {
        Some(origin) => origin,
        None => {
            return Err(EntryFault::Missing(TAG_ORIGIN));
        },
    };
    let created_at = match p.created_at {
        Some(t) => t,
        None => {
            return Err(EntryFault::Missing(TAG_CREATED));
        },
    };
    if action == RuleAction::Allow && p.expires_at.is_some() {
        return Err(EntryFault::Invalid(TAG_EXPIRES));
    }
    Ok(RuleEntry { ip, action, reason: p.reason, origin, created_at, expires_at: p.expires_at })
}

/// Reads the entry that the body of a frame holds.
pub fn decode_one(body: &[u8]) -> (r: Result<RuleEntry, EntryFault>)
    ensures
        match decode_entry(body@) {
            Ok(e) => r matches Ok(entry) && entry@ == e,
            Err(fault) => r == Err::<RuleEntry, EntryFault>(fault),
        },
        r matches Ok(entry) ==> entry.ip.wf(),
{
    let n = body.len();
    let mut p = Partial {
        ip: None,
        action: None,
        reason: None,
        origin: None,
        created_at: None,
        expires_at: None,
        fault: None,
    };
    let mut pos: usize = 0;
    while pos < n
        invariant
            pos <= n,
            n == body@.len(),
            p@.ip matches Some(ip) ==> ip.wf(),
            scan_fields(body@, 0, blank()) == scan_fields(body@, pos as int, p@),
        decreases n - pos,
    {
        if n - pos < 9 {
            return finish_entry(note_fault(p, EntryFault::Truncated));
        }
        let len = u64_from_le_bytes(slice_subrange(body, pos + 1, pos + 9));
        if len > (n - pos - 9) as u64 {
            return finish_entry(note_fault(p, EntryFault::Truncated));
        }
        let start = pos + 9;
        let end = start + len as usize;
        p = absorb_field(p, body[pos], slice_subrange(body, start, end));
        pos = end;
    }
    finish_entry(p)
}

/// Reads a file. An entry that cannot be read is skipped and a warning says
/// which and why; a file that does not start as a file does, or in which a
/// frame runs past the end, is refused.
pub fn decode_rules(bytes: &[u8]) -> (r: Result<Imported, FormatError>)
    ensures
        match spec_import(bytes@) {
            Ok(v) => r matches Ok(imported) && imported@ == v,
            Err(e) => r matches Err(err) && err == e,
        },
        r matches Ok(imported) ==> forall|i: int|
            0 <= i < imported.entries@.len() ==> (#[trigger] imported.entries@[i]).ip.wf(),
{
    let n = bytes.len();
    if n < 5 || bytes[0] != 0x44 || bytes[1] != 0x53 || bytes[2] != 0x52 || bytes[3] != 0x4b {
        return Err(FormatError::BadMagic);
    }
    if bytes[4] == 0 {
        return Err(FormatError::BadVersion);
    }
    let mut entries: Vec<RuleEntry> = Vec::new();
    let mut warnings: Vec<ImportWarning> = Vec::new();
    let mut index: usize = 0;
    let mut pos: usize = 5;
    let ghost mut frames: Seq<Seq<u8>> = Seq::empty();
    assert(entries_view(entries@) =~= Seq::<RuleEntryView>::empty());
    while pos < n
        invariant
            5 <= pos <= n,
            n == bytes@.len(),
            has_magic(bytes@),
            bytes@[4] != 0,
            index == frames.len(),
            index <= pos,
            forall|i: int| 0 <= i < entries@.len() ==> (#[trigger] entries@[i]).ip.wf(),
            scan_frames(bytes@, 5, Seq::empty()) == scan_frames(bytes@, pos as int, frames),
            collect(frames) == (ImportView {
                entries: entries_view(entries@),
                warnings: warnings@,
            }),
        decreases n - pos,
    {
        if n - pos < 8 {
            return Err(FormatError::Truncated);
        }
        let len = u64_from_le_bytes(slice_subrange(bytes, pos, pos + 8));
        if len > (n - pos - 8) as u64 {
            return Err(FormatError::Truncated);
        }
        let start = pos + 8;
        let end = start + len as usize;
        let body = slice_subrange(bytes, start, end);
        let ghost grown = frames.push(body@);
        proof {
            assert(grown.drop_last() =~= frames);
            assert(grown.last() == body@);
        }
        match decode_one(body) {
            Ok(entry) => {
                proof {
                    assert(entries_view(entries@.push(entry)) =~= entries_view(entries@).push(
                        entry@,
                    ));
                }
                entries.push(entry);
            },
            Err(fault) => {
                warnings.push(ImportWarning { index, fault });
            },
        }
        proof {
            frames = grown;
        }
        index = index + 1;
        pos = end;
    }
    Ok(Imported { entries, warnings })
}

} // verus!
