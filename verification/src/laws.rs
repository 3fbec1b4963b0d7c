//! The format's global laws: a built archive decodes back to the entries it
//! was built from, and alignment governs every payload position.

use vstd::prelude::*;
use crate::align::{align_up, lemma_pad_len, pad_len, zeros};
use crate::codec::{lemma_u32_le_round_trip, lemma_u64_le_round_trip, u32_le, u32_of_le, u64_le};
use crate::hash::md5_of;
use crate::pck::{
    decoded_name_of, magic, parse_entries, parse_entry, parse_pck, EntryModel, GodotVersion,
    PckError, PckModel, SUPPORTED_VERSION,
};
use crate::patcher::{
    build_bytes, entry_offset, full_name, header_bytes, item_record, lemma_entry_offset_mono,
    lemma_entry_offset_step, lemma_mix_len, lemma_payload_len, lemma_payload_slice,
    lemma_table_len_nonneg, lemma_table_len_take_le, lemma_table_len_take_step, lemma_table_slice,
    payload_bytes, payload_start, record_len, table_bytes, table_len,
};
use crate::patcher::transform;
use crate::store::{apply_overlays, entry_in_range, from_decoded_spec, ItemModel};

verus! {

/// When a sequence of items can be encoded so that decoding recovers it: each
/// on-disk name decodes to itself (valid UTF-8, no trailing NUL) and fits the
/// 32-bit length field, the entry count fits its 32-bit field, each content
/// size fits its 64-bit field, and the whole output stays small enough for
/// every offset to fit its 64-bit field.
pub open spec fn encodable(items: Seq<ItemModel>, a: int) -> bool {
    &&& forall|k: int|
        0 <= k < items.len() ==> decoded_name_of(#[trigger] full_name(items[k].name)) == full_name(
            items[k].name,
        )
    &&& forall|k: int| 0 <= k < items.len() ==> 6 + #[trigger] items[k].name.len() <= u32::MAX
    &&& items.len() <= u32::MAX
    &&& forall|k: int| 0 <= k < items.len() ==> #[trigger] items[k].content.len() <= u64::MAX
    &&& entry_offset(items, payload_start(items, a), a, items.len() as int) <= u64::MAX
}

/// The entry that decoding a built archive yields at position `j`.
pub open spec fn round_trip_entry(items: Seq<ItemModel>, a: int, j: int) -> EntryModel {
    EntryModel {
        name: full_name(items[j].name),
        offset: entry_offset(items, payload_start(items, a), a, j) as u64,
        offset_pos: (88 + table_len(items.take(j)) + 10 + items[j].name.len()) as u64,
        size: items[j].content.len() as u64,
        md5: md5_of(items[j].content)@,
    }
}

/// The built archive is exactly as long as the offset one past its last
/// entry, and its regions have their stated lengths.
proof fn lemma_build_len(gv: GodotVersion, items: Seq<ItemModel>, a: int)
    requires
        a >= 0,
    ensures
        ({
            let te = 88 + table_len(items);
            let ps = payload_start(items, a);
            let b = build_bytes(SUPPORTED_VERSION, gv, items, a);
            &&& header_bytes(SUPPORTED_VERSION, gv, items.len() as u32).len() == 88
            &&& table_bytes(items, ps, a).len() == table_len(items)
            &&& te >= 88
            &&& te <= ps
            &&& b.len() == entry_offset(items, ps, a, items.len() as int)
            &&& ps <= b.len()
        }),
{
    let te = 88 + table_len(items);
    let ps = payload_start(items, a);
    lemma_table_len_nonneg(items);
    lemma_pad_len(te, a);
    lemma_mix_len(items, ps, a, items.len() as int);
    assert(items.take(items.len() as int) =~= items);
    lemma_payload_len(items, ps, a, items.len() as int);
}

/// From table position `j` on, parsing reads exactly the remaining entries
/// and stops at the end of the table.
#[verifier::rlimit(100)]
proof fn lemma_parse_table_from(
    b: Seq<u8>,
    gv: GodotVersion,
    items: Seq<ItemModel>,
    a: int,
    j: int,
)
    requires
        a >= 0,
        encodable(items, a),
        b == build_bytes(SUPPORTED_VERSION, gv, items, a),
        0 <= j <= items.len(),
    ensures
        parse_entries(b, 88 + table_len(items.take(j)), (items.len() - j) as nat) == Some::<
            (Seq<EntryModel>, int),
        >(
            (
                Seq::new((items.len() - j) as nat, |k: int| round_trip_entry(items, a, j + k)),
                88 + table_len(items),
            ),
        ),
    decreases items.len() - j,
{
    let n = items.len() as int;
    let te = 88 + table_len(items);
    let ps = payload_start(items, a);
    let hdr = header_bytes(SUPPORTED_VERSION, gv, items.len() as u32);
    let t = table_bytes(items, ps, a);
    let z = zeros(pad_len(te, a));
    let p = payload_bytes(items, ps, a);
    lemma_build_len(gv, items, a);
    lemma_pad_len(te, a);
    lemma_table_len_take_le(items, j);
    if j == n {
        assert(items.take(j) =~= items);
        assert(Seq::new(0nat, |k: int| round_trip_entry(items, a, j + k)) =~= Seq::<
            EntryModel,
        >::empty());
    } else {
        let es = 88 + table_len(items.take(j));
        let rl = record_len(items[j]);
        let nlen = 6 + items[j].name.len() as int;
        let offj = entry_offset(items, ps, a, j);
        lemma_table_slice(items, ps, a, j);
        lemma_table_len_take_step(items, j);
        lemma_table_len_take_le(items, j + 1);
        lemma_entry_offset_mono(items, ps, a, j + 1, n);
        lemma_entry_offset_mono(items, ps, a, 0, j);
        lemma_entry_offset_mono(items, ps, a, j, n);
        let rec = item_record(items[j], offj as u64);
        let fname = full_name(items[j].name);
        assert(fname.len() == nlen);
        assert(md5_of(items[j].content)@.len() == 16);
        assert(rec.len() == rl);
        assert(rl == 4 + nlen + 32);
        // the record as the buffer holds it
        assert(b.subrange(es, es + rl) =~= t.subrange(
            table_len(items.take(j)),
            table_len(items.take(j)) + rl,
        ));
        assert(b.subrange(es, es + rl) == rec);
        // its fields, as parsing slices them out
        assert(rec.subrange(0, 4) =~= u32_le((nlen) as u32));
        assert(rec.subrange(4, 4 + nlen) =~= fname);
        assert(rec.subrange(4 + nlen, 4 + nlen + 8) =~= u64_le(offj as u64));
        assert(rec.subrange(4 + nlen + 8, 4 + nlen + 16) =~= u64_le(
            items[j].content.len() as u64,
        ));
        assert(rec.subrange(4 + nlen + 16, 4 + nlen + 32) =~= md5_of(items[j].content)@);
        assert(b.subrange(es, es + 4) =~= rec.subrange(0, 4));
        assert(b.subrange(es + 4, es + 4 + nlen) =~= rec.subrange(4, 4 + nlen));
        assert(b.subrange(es + 4 + nlen, es + 4 + nlen + 8) =~= rec.subrange(
            4 + nlen,
            4 + nlen + 8,
        ));
        assert(b.subrange(es + 4 + nlen + 8, es + 4 + nlen + 16) =~= rec.subrange(
            4 + nlen + 8,
            4 + nlen + 16,
        ));
        assert(b.subrange(es + 4 + nlen + 16, es + 4 + nlen + 32) =~= rec.subrange(
            4 + nlen + 16,
            4 + nlen + 32,
        ));
        lemma_u32_le_round_trip(nlen as u32);
        lemma_u64_le_round_trip(offj as u64);
        lemma_u64_le_round_trip(items[j].content.len() as u64);
        assert(u32_of_le(b.subrange(es, es + 4)) as int == nlen);
        assert(parse_entry(b, es) == Some::<(EntryModel, int)>(
            (round_trip_entry(items, a, j), es + rl),
        ));
        lemma_parse_table_from(b, gv, items, a, j + 1);
        let tail = Seq::new((n - j - 1) as nat, |k: int| round_trip_entry(items, a, j + 1 + k));
        let whole = Seq::new((n - j) as nat, |k: int| round_trip_entry(items, a, j + k));
        assert(seq![round_trip_entry(items, a, j)] + tail =~= whole);
    }
}

/// Law (round trip): decoding the result of encoding recovers every entry —
/// its on-disk name, its size, its digest — and reading the buffer at the
/// entry's stored offset and size reproduces its content bytes exactly. This
/// holds for any alignment, overlay or none.
#[verifier::rlimit(100)]
pub proof fn lemma_round_trip(gv: GodotVersion, items: Seq<ItemModel>, a: int)
    requires
        a >= 0,
        encodable(items, a),
    ensures
        ({
            let b = build_bytes(SUPPORTED_VERSION, gv, items, a);
            &&& parse_pck(b) == Ok::<PckModel, PckError>(
                PckModel {
                    version: SUPPORTED_VERSION,
                    godot_version: gv,
                    entries: Seq::new(items.len(), |k: int| round_trip_entry(items, a, k)),
                },
            )
            &&& forall|j: int|
                0 <= j < items.len() ==> entry_in_range(
                    #[trigger] round_trip_entry(items, a, j),
                    b.len() as int,
                )
            &&& forall|j: int|
                0 <= j < items.len() ==> b.subrange(
                    round_trip_entry(items, a, j).offset as int,
                    round_trip_entry(items, a, j).offset + round_trip_entry(items, a, j).size,
                ) == #[trigger] items[j].content
        }),
{
    let n = items.len() as int;
    let te = 88 + table_len(items);
    let ps = payload_start(items, a);
    let b = build_bytes(SUPPORTED_VERSION, gv, items, a);
    let hdr = header_bytes(SUPPORTED_VERSION, gv, items.len() as u32);
    let t = table_bytes(items, ps, a);
    let z = zeros(pad_len(te, a));
    let p = payload_bytes(items, ps, a);
    lemma_build_len(gv, items, a);
    lemma_pad_len(te, a);
    // header fields
    assert(b.subrange(0, 4) =~= magic());
    assert(b.subrange(4, 8) =~= u32_le(SUPPORTED_VERSION));
    assert(b.subrange(8, 12) =~= u32_le(gv.major));
    assert(b.subrange(12, 16) =~= u32_le(gv.minor));
    assert(b.subrange(16, 20) =~= u32_le(gv.patch));
    assert(b.subrange(84, 88) =~= u32_le(items.len() as u32));
    lemma_u32_le_round_trip(SUPPORTED_VERSION);
    lemma_u32_le_round_trip(gv.major);
    lemma_u32_le_round_trip(gv.minor);
    lemma_u32_le_round_trip(gv.patch);
    lemma_u32_le_round_trip(items.len() as u32);
    assert(u32_of_le(b.subrange(84, 88)) as nat == items.len());
    // table
    assert(items.take(0) =~= Seq::empty());
    lemma_parse_table_from(b, gv, items, a, 0);
    assert(parse_entries(b, 88, items.len()) == Some::<(Seq<EntryModel>, int)>(
        (Seq::new(items.len(), |k: int| round_trip_entry(items, a, k)), te),
    ));
    // contents
    assert forall|j: int| 0 <= j < items.len() implies entry_in_range(
        #[trigger] round_trip_entry(items, a, j),
        b.len() as int,
    ) && b.subrange(
        round_trip_entry(items, a, j).offset as int,
        round_trip_entry(items, a, j).offset + round_trip_entry(items, a, j).size,
    ) == items[j].content by {
        let offj = entry_offset(items, ps, a, j);
        assert(b.len() == entry_offset(items, ps, a, n));
        lemma_entry_offset_mono(items, ps, a, 0, j);
        lemma_entry_offset_mono(items, ps, a, j, n);
        lemma_entry_offset_mono(items, ps, a, j + 1, n);
        lemma_entry_offset_step(items, ps, a, j);
        lemma_pad_len(offj + items[j].content.len(), a);
        lemma_payload_slice(items, ps, a, j);
        assert(round_trip_entry(items, a, j).offset as int == offj);
        assert(round_trip_entry(items, a, j).size as int == items[j].content.len() as int);
        assert(b.subrange(offj, offj + items[j].content.len()) =~= p.subrange(
            offj - ps,
            offj - ps + items[j].content.len(),
        ));
    }
}

/// Law (alignment invariant): with a positive alignment the payload region
/// and every entry's payload start at a multiple of it; with alignment 0 no
/// padding byte is ever inserted and the payload region begins immediately
/// after the table.
pub proof fn lemma_alignment_invariant(items: Seq<ItemModel>, a: int)
    requires
        a >= 0,
    ensures
        a > 0 ==> payload_start(items, a) % a == 0,
        a > 0 ==> forall|j: int|
            0 <= j < items.len() ==> #[trigger] entry_offset(
                items,
                payload_start(items, a),
                a,
                j,
            ) % a == 0,
        a == 0 ==> payload_start(items, 0) == 88 + table_len(items),
        a == 0 ==> forall|gv: GodotVersion|
            (#[trigger] build_bytes(SUPPORTED_VERSION, gv, items, 0)).len() == 88 + table_len(
                items,
            ) + content_len(items),
{
    let te = 88 + table_len(items);
    let ps = payload_start(items, a);
    lemma_table_len_nonneg(items);
    lemma_pad_len(te, a);
    if a > 0 {
        assert forall|j: int| 0 <= j < items.len() implies #[trigger] entry_offset(
            items,
            ps,
            a,
            j,
        ) % a == 0 by {
            lemma_entry_offset_aligned(items, ps, a, j);
        }
    } else {
        assert forall|gv: GodotVersion| (#[trigger] build_bytes(
            SUPPORTED_VERSION,
            gv,
            items,
            0,
        )).len() == 88 + table_len(items) + content_len(items) by {
            lemma_build_len(gv, items, 0);
            lemma_payload_unpadded(items, ps, items.len() as int);
            assert(items.take(items.len() as int) =~= items);
        }
    }
}

/// Law (digest correctness): in a built archive, every entry's stored digest
/// is exactly the digest of the content bytes its own offset and size select
/// from that archive.
pub proof fn lemma_digest_correct(gv: GodotVersion, items: Seq<ItemModel>, a: int, j: int)
    requires
        a >= 0,
        encodable(items, a),
        0 <= j < items.len(),
    ensures
        ({
            let b = build_bytes(SUPPORTED_VERSION, gv, items, a);
            let e = round_trip_entry(items, a, j);
            e.md5 == md5_of(b.subrange(e.offset as int, e.offset + e.size))@
        }),
{
    lemma_round_trip(gv, items, a);
    let b = build_bytes(SUPPORTED_VERSION, gv, items, a);
    let e = round_trip_entry(items, a, j);
    assert(b.subrange(e.offset as int, e.offset + e.size) == items[j].content);
}

/// The merged items a transformation run encodes: the decoded store with the
/// overlay inputs applied in order.
pub open spec fn transformed_items(b: Seq<u8>, overlays: Seq<ItemModel>) -> Seq<ItemModel> {
    match parse_pck(b) {
        Ok(m) => apply_overlays(from_decoded_spec(m.entries, b), overlays),
        Err(_) => Seq::empty(),
    }
}

/// Law (idempotence): running the transformation again on its own output,
/// with the identical overlay inputs and the identical alignment, produces
/// that output byte for byte.
#[verifier::rlimit(100)]
pub proof fn lemma_idempotent(bytes: Seq<u8>, overlays: Seq<ItemModel>, a: int, out: Seq<u8>)
    requires
        a >= 0,
        transform(bytes, overlays, a) == Ok::<Seq<u8>, PckError>(out),
        encodable(transformed_items(bytes, overlays), a),
    ensures
        transform(out, overlays, a) == Ok::<Seq<u8>, PckError>(out),
{
    let items = transformed_items(bytes, overlays);
    let mr = parse_pck(bytes);
    assert(mr is Ok);
    let m = mr->Ok_0;
    let base = from_decoded_spec(m.entries, bytes);
    assert(items == apply_overlays(base, overlays));
    assert(m.version == SUPPORTED_VERSION);
    assert(out == build_bytes(SUPPORTED_VERSION, m.godot_version, items, a));
    crate::store::lemma_from_decoded_wf(m.entries, bytes);
    crate::store::lemma_apply_overlays_wf(base, overlays);
    lemma_round_trip(m.godot_version, items, a);
    let e2 = Seq::new(items.len(), |k: int| round_trip_entry(items, a, k));
    assert(parse_pck(out) == Ok::<PckModel, PckError>(
        PckModel {
            version: SUPPORTED_VERSION,
            godot_version: m.godot_version,
            entries: e2,
        },
    ));
    assert(!(exists|k: int|
        0 <= k < e2.len() && !entry_in_range(#[trigger] e2[k], out.len() as int))) by {
        if exists|k: int| 0 <= k < e2.len() && !entry_in_range(#[trigger] e2[k], out.len() as int) {
            let k = choose|k: int|
                0 <= k < e2.len() && !entry_in_range(#[trigger] e2[k], out.len() as int);
            assert(entry_in_range(round_trip_entry(items, a, k), out.len() as int));
        }
    }
    assert forall|j: int| 0 <= j < e2.len() implies crate::store::strip_prefix(
        (#[trigger] e2[j]).name,
    ) == items[j].name && crate::store::content_of(e2[j], out) == items[j].content by {
        assert(full_name(items[j].name).skip(6) =~= items[j].name);
        assert(out.subrange(
            round_trip_entry(items, a, j).offset as int,
            round_trip_entry(items, a, j).offset + round_trip_entry(items, a, j).size,
        ) == items[j].content);
    }
    crate::store::lemma_redecode(e2, out, items);
    crate::store::lemma_apply_overlays_idem(base, overlays);
    assert(apply_overlays(items, overlays) == items);
    assert(transform(out, overlays, a) == Ok::<Seq<u8>, PckError>(
        build_bytes(SUPPORTED_VERSION, m.godot_version, items, a),
    ));
}

/// Total content bytes across all items.
pub open spec fn content_len(items: Seq<ItemModel>) -> int
    decreases items.len(),
{
    if items.len() == 0 {
        0
    } else {
        items[0].content.len() + content_len(items.drop_first())
    }
}

/// With alignment disabled, offsets advance by content alone.
proof fn lemma_payload_unpadded(items: Seq<ItemModel>, off: int, j: int)
    requires
        0 <= j <= items.len(),
    ensures
        entry_offset(items, off, 0, j) == off + content_len(items.take(j)),
    decreases j,
{
    if j == 0 {
        assert(items.take(0) =~= Seq::empty());
    } else {
        lemma_entry_offset_step(items, off, 0, j - 1);
        lemma_payload_unpadded(items, off, j - 1);
        lemma_content_len_take_step(items, j - 1);
    }
}

/// Taking one more item adds exactly its content length.
proof fn lemma_content_len_take_step(items: Seq<ItemModel>, j: int)
    requires
        0 <= j < items.len(),
    ensures
        content_len(items.take(j + 1)) == content_len(items.take(j)) + items[j].content.len(),
    decreases j,
{
    if j == 0 {
        assert(items.take(0) =~= Seq::empty());
        assert(items.take(1) =~= seq![items[0]]);
        assert(items.take(1).drop_first() =~= Seq::empty());
    } else {
        let d = items.drop_first();
        lemma_content_len_take_step(d, j - 1);
        assert(items.take(j + 1).drop_first() =~= d.take(j));
        assert(items.take(j).drop_first() =~= d.take(j - 1));
        assert(items.take(j + 1)[0] == items[0]);
        assert(items.take(j)[0] == items[0]);
        assert(d[j - 1] == items[j]);
    }
}

/// Offsets stay aligned: the region start is a multiple of the alignment and
/// every step rounds up to one.
proof fn lemma_entry_offset_aligned(items: Seq<ItemModel>, off: int, a: int, j: int)
    requires
        a > 0,
        off >= 0,
        off % a == 0,
        0 <= j,
    ensures
        entry_offset(items, off, a, j) % a == 0,
    decreases j,
{
    if j > 0 {
        let off1 = align_up(off + items[0].content.len(), a);
        lemma_pad_len(off + items[0].content.len(), a);
        lemma_entry_offset_aligned(items.drop_first(), off1, a, j - 1);
    }
}

} // verus!
