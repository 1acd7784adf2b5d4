//! Reading back what was written: a file that `spec_export` makes is read by
//! `spec_import` as the entries it was made from, without a warning.

use crate::address::IpNet;
use crate::codec::{
    action_code, encode_entries, encode_entry, field, frame, header, ip_bytes, optional_field,
    origin_code, spec_export, text_bytes, time_bytes, RuleEntryView, TAG_ACTION, TAG_CREATED,
    TAG_EXPIRES, TAG_IP, TAG_ORIGIN, TAG_REASON,
};
use crate::import::{
    absorb, blank, collect, decode_action, decode_entry, decode_ip, decode_origin, decode_text,
    decode_time, finish, has_magic, scan_fields, scan_frames, spec_import, ImportView,
    PartialView,
};
use crate::record::RuleAction;
use vstd::bytes::{
    lemma_auto_spec_u128_to_from_le_bytes, lemma_auto_spec_u32_to_from_le_bytes,
    lemma_auto_spec_u64_to_from_le_bytes, spec_u128_to_le_bytes, spec_u32_to_le_bytes,
    spec_u64_from_le_bytes, spec_u64_to_le_bytes,
};
use vstd::prelude::*;
use vstd::utf8::{encode_utf8, encode_utf8_decode_utf8, encode_utf8_valid_utf8};

verus! {

/// An entry that can be written and read back: its address is well-formed,
/// it has a deadline only if it is a block, and its text and its frame are no
/// longer than a length field can say.
pub open spec fn exportable(e: RuleEntryView) -> bool {
    &&& e.ip.wf()
    &&& (e.action == RuleAction::Allow ==> e.expires_at is None)
    &&& (e.reason matches Some(t) ==> encode_utf8(t).len() <= u64::MAX)
    &&& encode_entry(e).len() <= u64::MAX
}

/// The bodies of the frames of a sequence of entries.
pub open spec fn bodies(entries: Seq<RuleEntryView>) -> Seq<Seq<u8>> {
    Seq::new(entries.len(), |i: int| encode_entry(entries[i]))
}

/// A field is nine bytes longer than its value.
proof fn lemma_field_len(tag: u8, value: Seq<u8>)
    ensures
        field(tag, value).len() == 9 + value.len(),
{
    lemma_auto_spec_u64_to_from_le_bytes();
}

/// Scanning steps over one field and takes it into the partial entry.
proof fn lemma_field_scan(pre: Seq<u8>, tag: u8, value: Seq<u8>, post: Seq<u8>, p: PartialView)
    requires
        value.len() <= u64::MAX,
    ensures
        scan_fields(pre + field(tag, value) + post, pre.len() as int, p) == scan_fields(
            pre + field(tag, value) + post,
            (pre.len() + 9 + value.len()) as int,
            absorb(p, tag, value),
        ),
{
    lemma_auto_spec_u64_to_from_le_bytes();
    let body = pre + field(tag, value) + post;
    let pos = pre.len() as int;
    let len = spec_u64_to_le_bytes(value.len() as u64);
    assert(len.len() == 8);
    assert(body[pos] == tag);
    assert(body.subrange(pos + 1, pos + 9) =~= len);
    assert(spec_u64_from_le_bytes(len) == value.len());
    assert(body.subrange(pos + 9, pos + 9 + value.len()) =~= value);
}

/// Scanning steps over a field that may be absent.
proof fn lemma_optional_field_scan(
    pre: Seq<u8>,
    tag: u8,
    value: Option<Seq<u8>>,
    post: Seq<u8>,
    p: PartialView,
)
    requires
        value matches Some(v) ==> v.len() <= u64::MAX,
    ensures
        scan_fields(pre + optional_field(tag, value) + post, pre.len() as int, p) == scan_fields(
            pre + optional_field(tag, value) + post,
            (pre.len() + optional_field(tag, value).len()) as int,
            match value {
                Some(v) => absorb(p, tag, v),
                None => p,
            },
        ),
{
    match value {
        Some(v) => {
            lemma_field_len(tag, v);
            lemma_field_scan(pre, tag, v, post, p);
        },
        None => {},
    }
}

/// The bytes of a well-formed address are read as that address.
proof fn lemma_ip_round_trip(ip: IpNet)
    requires
        ip.wf(),
    ensures
        decode_ip(ip_bytes(ip)) == Some(ip),
{
    lemma_auto_spec_u32_to_from_le_bytes();
    lemma_auto_spec_u128_to_from_le_bytes();
    let b = ip_bytes(ip);
    match ip {
        IpNet::V4(net) => {
            assert(spec_u32_to_le_bytes(net.addr).len() == 4);
            assert(b.subrange(0, 4) =~= spec_u32_to_le_bytes(net.addr));
            assert(b[4] == net.prefix);
        },
        IpNet::V6(net) => {
            assert(spec_u128_to_le_bytes(net.addr).len() == 16);
            assert(b.subrange(0, 16) =~= spec_u128_to_le_bytes(net.addr));
            assert(b[16] == net.prefix);
        },
    }
}

/// What reading the fields of an entry in their order comes to.
spec fn absorbed(e: RuleEntryView) -> PartialView {
    let with_ip = absorb(blank(), TAG_IP, ip_bytes(e.ip));
    let with_action = absorb(with_ip, TAG_ACTION, seq![action_code(e.action)]);
    let with_reason = match text_bytes(e.reason) {
        Some(v) => absorb(with_action, TAG_REASON, v),
        None => with_action,
    };
    let with_origin = absorb(with_reason, TAG_ORIGIN, seq![origin_code(e.origin)]);
    let with_created = absorb(with_origin, TAG_CREATED, spec_u64_to_le_bytes(e.created_at));
    match time_bytes(e.expires_at) {
        Some(v) => absorb(with_created, TAG_EXPIRES, v),
        None => with_created,
    }
}

/// One step of scanning, over a field that stands between `pre` and `post`.
proof fn lemma_scan_step(
    body: Seq<u8>,
    pre: Seq<u8>,
    tag: u8,
    value: Option<Seq<u8>>,
    post: Seq<u8>,
    p: PartialView,
)
    requires
        body == pre + optional_field(tag, value) + post,
        value matches Some(v) ==> v.len() <= u64::MAX,
    ensures
        scan_fields(body, pre.len() as int, p) == scan_fields(
            body,
            (pre.len() + optional_field(tag, value).len()) as int,
            match value {
                Some(v) => absorb(p, tag, v),
                None => p,
            },
        ),
{
    lemma_optional_field_scan(pre, tag, value, post, p);
}

/// The lengths of the values of an entry's fixed fields.
proof fn lemma_value_lens(e: RuleEntryView)
    ensures
        ip_bytes(e.ip).len() <= 17,
        spec_u64_to_le_bytes(e.created_at).len() == 8,
        e.expires_at matches Some(t) ==> spec_u64_to_le_bytes(t).len() == 8,
{
    lemma_auto_spec_u32_to_from_le_bytes();
    lemma_auto_spec_u128_to_from_le_bytes();
    lemma_auto_spec_u64_to_from_le_bytes();
}

/// Scanning the body of an entry's frame takes its fields in their order.
#[verifier::rlimit(30)]
#[verifier::spinoff_prover]
proof fn lemma_entry_scan(e: RuleEntryView)
    requires
        exportable(e),
    ensures
        scan_fields(encode_entry(e), 0, blank()) == absorbed(e),
{
    let v1 = Some(ip_bytes(e.ip));
    let v2 = Some(seq![action_code(e.action)]);
    let v3 = text_bytes(e.reason);
    let v4 = Some(seq![origin_code(e.origin)]);
    let v5 = Some(spec_u64_to_le_bytes(e.created_at));
    let v6 = time_bytes(e.expires_at);
    let f1 = optional_field(TAG_IP, v1);
    let f2 = optional_field(TAG_ACTION, v2);
    let f3 = optional_field(TAG_REASON, v3);
    let f4 = optional_field(TAG_ORIGIN, v4);
    let f5 = optional_field(TAG_CREATED, v5);
    let f6 = optional_field(TAG_EXPIRES, v6);
    let body = encode_entry(e);
    let none = Seq::<u8>::empty();
    lemma_value_lens(e);
    let none_read = blank();
    let with_ip = absorb(none_read, TAG_IP, ip_bytes(e.ip));
    let with_action = absorb(with_ip, TAG_ACTION, seq![action_code(e.action)]);
    let with_reason = match v3 {
        Some(v) => absorb(with_action, TAG_REASON, v),
        None => with_action,
    };
    let with_origin = absorb(with_reason, TAG_ORIGIN, seq![origin_code(e.origin)]);
    let with_created = absorb(with_origin, TAG_CREATED, spec_u64_to_le_bytes(e.created_at));
    let with_all = absorbed(e);
    let a1 = f1.len() as int;
    let a2 = a1 + f2.len();
    let a3 = a2 + f3.len();
    let a4 = a3 + f4.len();
    let a5 = a4 + f5.len();
    let a6 = a5 + f6.len();
    assert(body.len() == a6);
    assert(scan_fields(body, 0, none_read) == scan_fields(body, a1, with_ip)) by {
        assert(body =~= none + f1 + (f2 + f3 + f4 + f5 + f6));
        lemma_scan_step(body, none, TAG_IP, v1, f2 + f3 + f4 + f5 + f6, none_read);
    }
    assert(scan_fields(body, a1, with_ip) == scan_fields(body, a2, with_action)) by {
        assert(body =~= f1 + f2 + (f3 + f4 + f5 + f6));
        lemma_scan_step(body, f1, TAG_ACTION, v2, f3 + f4 + f5 + f6, with_ip);
    }
    assert(scan_fields(body, a2, with_action) == scan_fields(body, a3, with_reason)) by {
        assert(body =~= (f1 + f2) + f3 + (f4 + f5 + f6));
        lemma_scan_step(body, f1 + f2, TAG_REASON, v3, f4 + f5 + f6, with_action);
    }
    assert(scan_fields(body, a3, with_reason) == scan_fields(body, a4, with_origin)) by {
        assert(body =~= (f1 + f2 + f3) + f4 + (f5 + f6));
        lemma_scan_step(body, f1 + f2 + f3, TAG_ORIGIN, v4, f5 + f6, with_reason);
    }
    assert(scan_fields(body, a4, with_origin) == scan_fields(body, a5, with_created)) by {
        assert(body =~= (f1 + f2 + f3 + f4) + f5 + f6);
        lemma_scan_step(body, f1 + f2 + f3 + f4, TAG_CREATED, v5, f6, with_origin);
    }
    assert(scan_fields(body, a5, with_created) == scan_fields(body, a6, with_all)) by {
        assert(body =~= (f1 + f2 + f3 + f4 + f5) + f6 + none);
        lemma_scan_step(body, f1 + f2 + f3 + f4 + f5, TAG_EXPIRES, v6, none, with_created);
    }
    assert(scan_fields(body, a6, with_all) == with_all);
}

/// The fields of an entry, read in their order, amount to the entry.
proof fn lemma_absorbed(e: RuleEntryView)
    requires
        exportable(e),
    ensures
        finish(absorbed(e)) == Ok::<RuleEntryView, crate::codec::EntryFault>(e),
{
    lemma_auto_spec_u64_to_from_le_bytes();
    lemma_value_lens(e);
    lemma_ip_round_trip(e.ip);
    let none_read = blank();
    let with_ip = absorb(none_read, TAG_IP, ip_bytes(e.ip));
    assert(with_ip == PartialView { ip: Some(e.ip), ..none_read });
    let with_action = absorb(with_ip, TAG_ACTION, seq![action_code(e.action)]);
    assert(decode_action(seq![action_code(e.action)]) == Some(e.action));
    assert(with_action == PartialView { action: Some(e.action), ..with_ip });
    let with_reason = match text_bytes(e.reason) {
        Some(v) => absorb(with_action, TAG_REASON, v),
        None => with_action,
    };
    match e.reason {
        Some(t) => {
            encode_utf8_valid_utf8(t);
            encode_utf8_decode_utf8(t);
            assert(decode_text(encode_utf8(t)) == Some(t));
        },
        None => {},
    }
    assert(with_reason == PartialView { reason: e.reason, ..with_action });
    let with_origin = absorb(with_reason, TAG_ORIGIN, seq![origin_code(e.origin)]);
    assert(decode_origin(seq![origin_code(e.origin)]) == Some(e.origin));
    assert(with_origin == PartialView { origin: Some(e.origin), ..with_reason });
    let with_created = absorb(with_origin, TAG_CREATED, spec_u64_to_le_bytes(e.created_at));
    assert(decode_time(spec_u64_to_le_bytes(e.created_at)) == Some(e.created_at));
    assert(with_created == PartialView { created_at: Some(e.created_at), ..with_origin });
    let with_all = absorbed(e);
    match e.expires_at {
        Some(t) => {
            assert(decode_time(spec_u64_to_le_bytes(t)) == Some(t));
        },
        None => {},
    }
    assert(with_all == PartialView { expires_at: e.expires_at, ..with_created });
}

/// The body of an entry's frame is read as that entry.
pub proof fn lemma_entry_round_trip(e: RuleEntryView)
    requires
        exportable(e),
    ensures
        decode_entry(encode_entry(e)) == Ok::<RuleEntryView, crate::codec::EntryFault>(e),
{
    lemma_entry_scan(e);
    lemma_absorbed(e);
}

/// Scanning steps over one frame and takes its body.
proof fn lemma_frame_scan(pre: Seq<u8>, body: Seq<u8>, post: Seq<u8>, acc: Seq<Seq<u8>>)
    requires
        body.len() <= u64::MAX,
    ensures
        frame(body).len() == 8 + body.len(),
        scan_frames(pre + frame(body) + post, pre.len() as int, acc) == scan_frames(
            pre + frame(body) + post,
            (pre.len() + 8 + body.len()) as int,
            acc.push(body),
        ),
{
    lemma_auto_spec_u64_to_from_le_bytes();
    let bytes = pre + frame(body) + post;
    let pos = pre.len() as int;
    let len = spec_u64_to_le_bytes(body.len() as u64);
    assert(len.len() == 8);
    assert(bytes.subrange(pos, pos + 8) =~= len);
    assert(spec_u64_from_le_bytes(len) == body.len());
    assert(bytes.subrange(pos + 8, pos + 8 + body.len()) =~= body);
}

/// Scanning steps over the frames of a sequence of entries and takes their
/// bodies.
proof fn lemma_frames_scan(
    pre: Seq<u8>,
    entries: Seq<RuleEntryView>,
    post: Seq<u8>,
    acc: Seq<Seq<u8>>,
)
    requires
        forall|i: int| 0 <= i < entries.len() ==> exportable(#[trigger] entries[i]),
    ensures
        scan_frames(pre + encode_entries(entries) + post, pre.len() as int, acc) == scan_frames(
            pre + encode_entries(entries) + post,
            (pre.len() + encode_entries(entries).len()) as int,
            acc + bodies(entries),
        ),
    decreases entries.len(),
{
    if entries.len() == 0 {
        assert(acc + bodies(entries) =~= acc);
    } else {
        let init = entries.drop_last();
        let last = entries.last();
        let body = encode_entry(last);
        let bytes = pre + encode_entries(entries) + post;
        assert(exportable(last));
        assert forall|i: int| 0 <= i < init.len() implies exportable(#[trigger] init[i]) by {
            assert(init[i] == entries[i]);
        }
        assert(bytes =~= pre + encode_entries(init) + (frame(body) + post));
        lemma_frames_scan(pre, init, frame(body) + post, acc);
        assert(bytes =~= (pre + encode_entries(init)) + frame(body) + post);
        lemma_frame_scan(pre + encode_entries(init), body, post, acc + bodies(init));
        assert((acc + bodies(init)).push(body) =~= acc + bodies(entries));
    }
}

/// The bodies of the frames of a sequence of entries are read as those
/// entries, without a warning.
proof fn lemma_collect_bodies(entries: Seq<RuleEntryView>)
    requires
        forall|i: int| 0 <= i < entries.len() ==> exportable(#[trigger] entries[i]),
    ensures
        collect(bodies(entries)) == (ImportView { entries, warnings: Seq::empty() }),
    decreases entries.len(),
{
    if entries.len() == 0 {
        assert(entries =~= Seq::<RuleEntryView>::empty());
    } else {
        let init = entries.drop_last();
        assert forall|i: int| 0 <= i < init.len() implies exportable(#[trigger] init[i]) by {
            assert(init[i] == entries[i]);
        }
        lemma_collect_bodies(init);
        assert(bodies(entries).drop_last() =~= bodies(init));
        assert(bodies(entries).last() == encode_entry(entries.last()));
        lemma_entry_round_trip(entries.last());
        assert(init.push(entries.last()) =~= entries);
    }
}

/// A file made from a sequence of entries is read as those entries, in their
/// order, and nothing is skipped.
pub proof fn lemma_import_export(entries: Seq<RuleEntryView>)
    requires
        forall|i: int| 0 <= i < entries.len() ==> exportable(#[trigger] entries[i]),
    ensures
        spec_import(spec_export(entries)) == Ok::<ImportView, crate::codec::FormatError>(
            ImportView { entries, warnings: Seq::empty() },
        ),
{
    let bytes = spec_export(entries);
    let none = Seq::<u8>::empty();
    assert(has_magic(bytes));
    assert(bytes[4] == 1);
    assert(bytes =~= header() + encode_entries(entries) + none);
    lemma_frames_scan(header(), entries, none, Seq::<Seq<u8>>::empty());
    assert(Seq::<Seq<u8>>::empty() + bodies(entries) =~= bodies(entries));
    assert(header().len() == 5);
    let end = (5 + encode_entries(entries).len()) as int;
    assert(end == bytes.len());
    assert(scan_frames(bytes, end, bodies(entries)) == Some(bodies(entries)));
    assert(scan_frames(bytes, 5, Seq::empty()) == Some(bodies(entries)));
    lemma_collect_bodies(entries);
}

} // verus!
