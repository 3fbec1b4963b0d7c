//! The two-pass writer: lay the table down with placeholder offsets, then
//! append payload blocks and patch each entry's offset field with its true
//! absolute position.

use vstd::prelude::*;
use crate::align::{align_up, lemma_pad_len, pad_len, pad_to_alignment, zeros};
use crate::binnedwrite::Writeable;
use crate::codec::{append_bytes, patch_u64_at, u32_le, u64_le};
use crate::hash::md5_of;
use crate::pck::{
    entry_record, magic, name_prefix, parse_pck, EntryModel, GodotVersion, Pck, PckEntry, PckError,
    PckModel,
};
use crate::store::{
    apply_overlays, entry_in_range, from_decoded_spec, item_models, EntryStore, ItemModel,
    RuntimePckEntry,
};

verus! {

/// The on-disk name of a working entry: the virtual-path prefix plus its key.
pub open spec fn full_name(key: Seq<u8>) -> Seq<u8> {
    name_prefix() + key
}

/// Length in bytes of one item's table record.
pub open spec fn record_len(it: ItemModel) -> int {
    42 + it.name.len() as int
}

/// Total length in bytes of the table region.
pub open spec fn table_len(items: Seq<ItemModel>) -> int
    decreases items.len(),
{
    if items.len() == 0 {
        0
    } else {
        record_len(items[0]) + table_len(items.drop_first())
    }
}

/// The 88-byte header: magic, version, engine-version triple, 64 reserved
/// zero bytes, entry count.
pub open spec fn header_bytes(version: u32, gv: GodotVersion, count: u32) -> Seq<u8> {
    magic() + u32_le(version) + u32_le(gv.major) + u32_le(gv.minor) + u32_le(gv.patch) + zeros(64)
        + u32_le(count)
}

/// One item's table record, storing the given absolute payload offset.
pub open spec fn item_record(it: ItemModel, off: u64) -> Seq<u8> {
    entry_record(full_name(it.name), off, it.content.len() as u64, md5_of(it.content)@)
}

/// The table region with the first `k` records carrying their real payload
/// offsets and the rest a placeholder zero. `off` is the absolute position the
/// first payload block will take.
pub open spec fn table_bytes_mix(items: Seq<ItemModel>, off: int, a: int, k: int) -> Seq<u8>
    decreases items.len(),
{
    if items.len() == 0 {
        Seq::empty()
    } else {
        let rec = if k > 0 {
            item_record(items[0], off as u64)
        } else {
            item_record(items[0], 0u64)
        };
        rec + table_bytes_mix(
            items.drop_first(),
            align_up(off + items[0].content.len(), a),
            a,
            k - 1,
        )
    }
}

/// The finished table: every record carries its entry's real offset.
pub open spec fn table_bytes(items: Seq<ItemModel>, off: int, a: int) -> Seq<u8> {
    table_bytes_mix(items, off, a, items.len() as int)
}

/// The payload region laid down from absolute position `off`: each content
/// block followed by its alignment padding.
pub open spec fn payload_bytes(items: Seq<ItemModel>, off: int, a: int) -> Seq<u8>
    decreases items.len(),
{
    if items.len() == 0 {
        Seq::empty()
    } else {
        items[0].content + zeros(pad_len(off + items[0].content.len(), a)) + payload_bytes(
            items.drop_first(),
            align_up(off + items[0].content.len(), a),
            a,
        )
    }
}

/// The absolute payload offset of entry `j`, when the first payload block
/// starts at `off`.
pub open spec fn entry_offset(items: Seq<ItemModel>, off: int, a: int, j: int) -> int
    decreases j,
{
    if j <= 0 {
        off
    } else {
        entry_offset(
            items.drop_first(),
            align_up(off + items[0].content.len(), a),
            a,
            j - 1,
        )
    }
}

/// Where the payload region starts: the end of the table, aligned.
pub open spec fn payload_start(items: Seq<ItemModel>, a: int) -> int {
    align_up(88 + table_len(items), a)
}

/// The complete output buffer for the given header fields, finalized items
/// and alignment.
pub open spec fn build_bytes(version: u32, gv: GodotVersion, items: Seq<ItemModel>, a: int) -> Seq<
    u8,
> {
    let te = 88 + table_len(items);
    let ps = payload_start(items, a);
    header_bytes(version, gv, items.len() as u32) + table_bytes(items, ps, a) + zeros(
        pad_len(te, a),
    ) + payload_bytes(items, ps, a)
}

/// Every table record is at least 42 bytes.
pub proof fn lemma_table_len_nonneg(items: Seq<ItemModel>)
    ensures
        table_len(items) >= 0,
    decreases items.len(),
{
    if items.len() > 0 {
        lemma_table_len_nonneg(items.drop_first());
    }
}

/// The mixed table always has the table's length, whatever `off` and `k`.
pub proof fn lemma_mix_len(items: Seq<ItemModel>, off: int, a: int, k: int)
    ensures
        table_bytes_mix(items, off, a, k).len() == table_len(items),
    decreases items.len(),
{
    if items.len() > 0 {
        lemma_mix_len(items.drop_first(), align_up(off + items[0].content.len(), a), a, k - 1);
    }
}

/// With no record patched yet the mixed table does not depend on `off` or on
/// which non-positive `k` it is taken at.
pub proof fn lemma_mix_nonpos(items: Seq<ItemModel>, off1: int, off2: int, a: int, k1: int, k2: int)
    requires
        k1 <= 0,
        k2 <= 0,
    ensures
        table_bytes_mix(items, off1, a, k1) == table_bytes_mix(items, off2, a, k2),
    decreases items.len(),
{
    if items.len() > 0 {
        lemma_mix_nonpos(
            items.drop_first(),
            align_up(off1 + items[0].content.len(), a),
            align_up(off2 + items[0].content.len(), a),
            a,
            k1 - 1,
            k2 - 1,
        );
    }
}

/// Taking one more item extends the table by exactly that item's record.
pub proof fn lemma_table_len_take_step(items: Seq<ItemModel>, j: int)
    requires
        0 <= j < items.len(),
    ensures
        table_len(items.take(j + 1)) == table_len(items.take(j)) + record_len(items[j]),
    decreases j,
{
    if j == 0 {
        assert(items.take(0) =~= Seq::empty());
        assert(items.take(1) =~= seq![items[0]]);
        assert(items.take(1).drop_first() =~= Seq::empty());
    } else {
        let d = items.drop_first();
        lemma_table_len_take_step(d, j - 1);
        assert(items.take(j + 1).drop_first() =~= d.take(j));
        assert(items.take(j).drop_first() =~= d.take(j - 1));
        assert(items.take(j + 1)[0] == items[0]);
        assert(items.take(j)[0] == items[0]);
        assert(d[j - 1] == items[j]);
    }
}

/// A table prefix never outgrows the whole table.
pub proof fn lemma_table_len_take_le(items: Seq<ItemModel>, j: int)
    requires
        0 <= j <= items.len(),
    ensures
        table_len(items.take(j)) <= table_len(items),
        table_len(items.take(j)) >= 0,
    decreases items.len() - j,
{
    lemma_table_len_nonneg(items.take(j));
    if j == items.len() {
        assert(items.take(j) =~= items);
    } else {
        lemma_table_len_take_step(items, j);
        lemma_table_len_take_le(items, j + 1);
    }
}

/// The placeholder table equals the mixed table taken at zero patched records.
pub proof fn lemma_ph_snoc(items: Seq<ItemModel>, off: int, a: int, j: int)
    requires
        0 <= j < items.len(),
    ensures
        table_bytes_mix(items.take(j + 1), off, a, 0) == table_bytes_mix(items.take(j), off, a, 0)
            + item_record(items[j], 0u64),
    decreases j,
{
    if j == 0 {
        assert(items.take(0) =~= Seq::empty());
        assert(items.take(1) =~= seq![items[0]]);
        assert(items.take(1).drop_first() =~= Seq::empty());
        assert(table_bytes_mix(items.take(0), off, a, 0) == Seq::<u8>::empty());
        assert(table_bytes_mix(
            items.take(1).drop_first(),
            align_up(off + items.take(1)[0].content.len(), a),
            a,
            -1,
        ) == Seq::<u8>::empty());
        assert(table_bytes_mix(items.take(1), off, a, 0) =~= table_bytes_mix(
            items.take(0),
            off,
            a,
            0,
        ) + item_record(items[0], 0u64));
    } else {
        let d = items.drop_first();
        let off1 = align_up(off + items[0].content.len(), a);
        lemma_ph_snoc(d, off1, a, j - 1);
        assert(items.take(j + 1).drop_first() =~= d.take(j));
        assert(items.take(j).drop_first() =~= d.take(j - 1));
        assert(items.take(j + 1)[0] == items[0]);
        assert(items.take(j)[0] == items[0]);
        assert(d[j - 1] == items[j]);
        lemma_mix_nonpos(
            d.take(j),
            align_up(off + items.take(j + 1)[0].content.len(), a),
            off1,
            a,
            -1,
            0,
        );
        lemma_mix_nonpos(
            d.take(j - 1),
            align_up(off + items.take(j)[0].content.len(), a),
            off1,
            a,
            -1,
            0,
        );
        assert(table_bytes_mix(items.take(j + 1), off, a, 0) =~= table_bytes_mix(
            items.take(j),
            off,
            a,
            0,
        ) + item_record(items[j], 0u64));
    }
}

/// Patching record `j` changes exactly the eight bytes of its offset field,
/// which sits after the record's name length and name.
pub proof fn lemma_mix_patch(items: Seq<ItemModel>, off: int, a: int, j: int)
    requires
        0 <= j < items.len(),
    ensures
        ({
            let q = table_len(items.take(j)) + 10 + items[j].name.len();
            let lhs = table_bytes_mix(items, off, a, j + 1);
            let rhs = table_bytes_mix(items, off, a, j);
            &&& lhs.len() == table_len(items)
            &&& rhs.len() == table_len(items)
            &&& q + 8 <= table_len(items)
            &&& forall|idx: int|
                0 <= idx < table_len(items) ==> lhs[idx] == (if q <= idx < q + 8 {
                    u64_le(entry_offset(items, off, a, j) as u64)[idx - q]
                } else {
                    rhs[idx]
                })
        }),
    decreases j,
{
    let q = table_len(items.take(j)) + 10 + items[j].name.len();
    let lhs = table_bytes_mix(items, off, a, j + 1);
    let rhs = table_bytes_mix(items, off, a, j);
    let off1 = align_up(off + items[0].content.len(), a);
    let d = items.drop_first();
    lemma_mix_len(items, off, a, j + 1);
    lemma_mix_len(items, off, a, j);
    lemma_table_len_take_step(items, j);
    lemma_table_len_take_le(items, j + 1);
    if j == 0 {
        assert(items.take(0) =~= Seq::empty());
        lemma_mix_nonpos(d, off1, off1, a, -1, 0);
        assert(lhs == item_record(items[0], off as u64) + table_bytes_mix(d, off1, a, 0));
        assert(rhs == item_record(items[0], 0u64) + table_bytes_mix(d, off1, a, 0));
        let tail = table_bytes_mix(d, off1, a, 0);
        let name = full_name(items[0].name);
        let sz = items[0].content.len() as u64;
        let dg = md5_of(items[0].content)@;
        assert(q == 10 + items[0].name.len());
        assert(name.len() == 6 + items[0].name.len());
        assert forall|idx: int| 0 <= idx < table_len(items) implies lhs[idx] == (if q <= idx < q
            + 8 {
            u64_le(entry_offset(items, off, a, j) as u64)[idx - q]
        } else {
            rhs[idx]
        }) by {
            let reca = item_record(items[0], off as u64);
            let recb = item_record(items[0], 0u64);
            assert(reca == u32_le(name.len() as u32) + name + u64_le(off as u64) + u64_le(sz)
                + dg);
            assert(recb == u32_le(name.len() as u32) + name + u64_le(0u64) + u64_le(sz) + dg);
            assert(reca.len() == recb.len() == 42 + items[0].name.len());
        }
    } else {
        lemma_mix_patch(d, off1, a, j - 1);
        lemma_mix_len(d, off1, a, j);
        lemma_mix_len(d, off1, a, j - 1);
        lemma_table_len_nonneg(d.take(j - 1));
        assert(items.take(j).drop_first() =~= d.take(j - 1));
        assert(d[j - 1] == items[j]);
        let q1 = table_len(d.take(j - 1)) + 10 + d[j - 1].name.len();
        let rec = item_record(items[0], off as u64);
        assert(lhs == rec + table_bytes_mix(d, off1, a, j));
        assert(rhs == rec + table_bytes_mix(d, off1, a, j - 1));
        assert(table_len(items.take(j)) == record_len(items[0]) + table_len(d.take(j - 1))) by {
            assert(items.take(j)[0] == items[0]);
        }
        assert(rec.len() == record_len(items[0]));
        assert(q == rec.len() + q1);
        assert(entry_offset(items, off, a, j) == entry_offset(d, off1, a, j - 1));
        assert forall|idx: int| 0 <= idx < table_len(items) implies lhs[idx] == (if q <= idx < q
            + 8 {
            u64_le(entry_offset(items, off, a, j) as u64)[idx - q]
        } else {
            rhs[idx]
        }) by {
            if idx >= rec.len() {
                assert(lhs[idx] == table_bytes_mix(d, off1, a, j)[idx - rec.len()]);
                assert(rhs[idx] == table_bytes_mix(d, off1, a, j - 1)[idx - rec.len()]);
            }
        }
    }
}

/// The payload region of a prefix ends exactly at the next entry's offset,
/// which never lies before the region's start.
pub proof fn lemma_payload_len(items: Seq<ItemModel>, off: int, a: int, j: int)
    requires
        0 <= j <= items.len(),
        off >= 0,
        a >= 0,
    ensures
        payload_bytes(items.take(j), off, a).len() == entry_offset(items, off, a, j) - off,
        entry_offset(items, off, a, j) >= off,
    decreases j,
{
    if j == 0 {
        assert(items.take(0) =~= Seq::empty());
    } else {
        let d = items.drop_first();
        let c0 = items[0].content;
        let off1 = align_up(off + c0.len(), a);
        lemma_pad_len(off + c0.len(), a);
        lemma_payload_len(d, off1, a, j - 1);
        assert(items.take(j).drop_first() =~= d.take(j - 1));
        assert(items.take(j)[0] == items[0]);
    }
}

/// Appending entry `j`'s payload block extends the prefix payload region by
/// its content and that content's padding.
pub proof fn lemma_payload_snoc(items: Seq<ItemModel>, off: int, a: int, j: int)
    requires
        0 <= j < items.len(),
        off >= 0,
        a >= 0,
    ensures
        payload_bytes(items.take(j + 1), off, a) == payload_bytes(items.take(j), off, a)
            + items[j].content + zeros(
            pad_len(entry_offset(items, off, a, j) + items[j].content.len(), a),
        ),
    decreases j,
{
    if j == 0 {
        assert(items.take(0) =~= Seq::empty());
        assert(items.take(1) =~= seq![items[0]]);
        assert(items.take(1).drop_first() =~= Seq::empty());
        assert(payload_bytes(items.take(0), off, a) == Seq::<u8>::empty());
        assert(payload_bytes(
            items.take(1).drop_first(),
            align_up(off + items.take(1)[0].content.len(), a),
            a,
        ) == Seq::<u8>::empty());
        assert(payload_bytes(items.take(1), off, a) =~= payload_bytes(items.take(0), off, a)
            + items[0].content + zeros(pad_len(off + items[0].content.len(), a)));
    } else {
        let d = items.drop_first();
        let c0 = items[0].content;
        let off1 = align_up(off + c0.len(), a);
        lemma_pad_len(off + c0.len(), a);
        lemma_payload_snoc(d, off1, a, j - 1);
        assert(items.take(j + 1).drop_first() =~= d.take(j));
        assert(items.take(j).drop_first() =~= d.take(j - 1));
        assert(items.take(j + 1)[0] == items[0]);
        assert(items.take(j)[0] == items[0]);
        assert(d[j - 1] == items[j]);
        assert(payload_bytes(items.take(j + 1), off, a) =~= payload_bytes(items.take(j), off, a)
            + items[j].content + zeros(
            pad_len(entry_offset(items, off, a, j) + items[j].content.len(), a),
        ));
    }
}

/// Each entry's offset is the previous one's, advanced by that content block
/// and its padding.
pub proof fn lemma_entry_offset_step(items: Seq<ItemModel>, off: int, a: int, j: int)
    requires
        0 <= j < items.len(),
    ensures
        entry_offset(items, off, a, j + 1) == align_up(
            entry_offset(items, off, a, j) + items[j].content.len(),
            a,
        ),
    decreases j,
{
    if j == 0 {
        assert(entry_offset(
            items.drop_first(),
            align_up(off + items[0].content.len(), a),
            a,
            0,
        ) == align_up(off + items[0].content.len(), a));
    } else {
        lemma_entry_offset_step(
            items.drop_first(),
            align_up(off + items[0].content.len(), a),
            a,
            j - 1,
        );
        assert(items.drop_first()[j - 1] == items[j]);
    }
}

/// Offsets never move backwards.
pub proof fn lemma_entry_offset_mono(items: Seq<ItemModel>, off: int, a: int, j1: int, j2: int)
    requires
        0 <= j1 <= j2 <= items.len(),
        off >= 0,
        a >= 0,
    ensures
        entry_offset(items, off, a, j1) <= entry_offset(items, off, a, j2),
    decreases j2 - j1,
{
    if j1 < j2 {
        lemma_entry_offset_step(items, off, a, j1);
        lemma_payload_len(items, off, a, j1);
        lemma_pad_len(entry_offset(items, off, a, j1) + items[j1].content.len(), a);
        lemma_entry_offset_mono(items, off, a, j1 + 1, j2);
    }
}

/// Record `j` of the finished table is its item's record, carrying entry
/// `j`'s real offset.
pub proof fn lemma_table_slice(items: Seq<ItemModel>, off: int, a: int, j: int)
    requires
        0 <= j < items.len(),
    ensures
        table_len(items.take(j)) + record_len(items[j]) <= table_len(items),
        table_bytes(items, off, a).subrange(
            table_len(items.take(j)),
            table_len(items.take(j)) + record_len(items[j]),
        ) == item_record(items[j], entry_offset(items, off, a, j) as u64),
    decreases j,
{
    lemma_table_len_take_step(items, j);
    lemma_table_len_take_le(items, j + 1);
    lemma_mix_len(items, off, a, items.len() as int);
    let t = table_bytes(items, off, a);
    let d = items.drop_first();
    let off1 = align_up(off + items[0].content.len(), a);
    let rec = item_record(items[0], off as u64);
    assert(items.len() as int > 0);
    assert(t == rec + table_bytes_mix(d, off1, a, items.len() as int - 1));
    lemma_mix_len(d, off1, a, items.len() as int - 1);
    if j == 0 {
        assert(items.take(0) =~= Seq::empty());
        assert(rec.len() == record_len(items[0]));
        assert(t.subrange(0, record_len(items[0])) =~= rec);
    } else {
        assert(table_bytes_mix(d, off1, a, items.len() as int - 1) == table_bytes(d, off1, a));
        lemma_table_slice(d, off1, a, j - 1);
        assert(items.take(j).drop_first() =~= d.take(j - 1));
        assert(items.take(j)[0] == items[0]);
        assert(d[j - 1] == items[j]);
        lemma_table_len_nonneg(d.take(j - 1));
        assert(table_len(items.take(j)) == record_len(items[0]) + table_len(d.take(j - 1)));
        assert(entry_offset(items, off, a, j) == entry_offset(d, off1, a, j - 1));
        let q = table_len(items.take(j));
        let q1 = table_len(d.take(j - 1));
        let rl = record_len(items[j]);
        assert(t.subrange(q, q + rl) =~= table_bytes(d, off1, a).subrange(q1, q1 + rl));
    }
}

/// Content block `j` sits in the payload region exactly at its entry's
/// offset, measured from the region's start.
pub proof fn lemma_payload_slice(items: Seq<ItemModel>, off: int, a: int, j: int)
    requires
        0 <= j < items.len(),
        off >= 0,
        a >= 0,
    ensures
        ({
            let lo = entry_offset(items, off, a, j) - off;
            let p = payload_bytes(items, off, a);
            &&& lo >= 0
            &&& lo + items[j].content.len() <= p.len()
            &&& p.subrange(lo, lo + items[j].content.len()) == items[j].content
        }),
    decreases j,
{
    let p = payload_bytes(items, off, a);
    let d = items.drop_first();
    let c0 = items[0].content;
    let off1 = align_up(off + c0.len(), a);
    lemma_pad_len(off + c0.len(), a);
    lemma_payload_len(items, off, a, j);
    assert(items.take(items.len() as int) =~= items);
    lemma_payload_len(items, off, a, items.len() as int);
    lemma_entry_offset_mono(items, off, a, j, items.len() as int);
    lemma_entry_offset_step(items, off, a, j);
    assert(p == c0 + zeros(pad_len(off + c0.len(), a)) + payload_bytes(d, off1, a));
    if j == 0 {
        assert(p.subrange(0, c0.len() as int) =~= c0);
        lemma_pad_len(entry_offset(items, off, a, 0) + c0.len(), a);
    } else {
        lemma_payload_slice(d, off1, a, j - 1);
        assert(d[j - 1] == items[j]);
        assert(entry_offset(items, off, a, j) == entry_offset(d, off1, a, j - 1));
        let lo = entry_offset(items, off, a, j) - off;
        let lo1 = entry_offset(d, off1, a, j - 1) - off1;
        let head = c0.len() + pad_len(off + c0.len(), a);
        assert(lo == head + lo1);
        assert(p.subrange(lo, lo + items[j].content.len()) =~= payload_bytes(
            d,
            off1,
            a,
        ).subrange(lo1, lo1 + items[j].content.len()));
    }
}

/// The model of the table record entry `k` gets during the table pass: name
/// with the prefix re-added, placeholder offset, recorded patch position,
/// size and digest of the final content.
pub open spec fn pass_one_entry(items: Seq<ItemModel>, k: int) -> EntryModel {
    EntryModel {
        name: full_name(items[k].name),
        offset: 0,
        offset_pos: (88 + table_len(items.take(k)) + 10 + items[k].name.len()) as u64,
        size: items[k].content.len() as u64,
        md5: md5_of(items[k].content)@,
    }
}

/// Encodes the finalized store into one complete archive buffer: header, then
/// the table pass with placeholder offsets, then the payload pass that appends
/// each content block and patches its true absolute offset into the table.
pub fn build_archive(version: u32, gv: GodotVersion, store: &EntryStore, alignment: usize) -> (out:
    Vec<u8>)
    ensures
        out@ == build_bytes(version, gv, store@, alignment as int),
{
    let ghost items = store@;
    let ghost a = alignment as int;
    let n = store.len();
    let mut out: Vec<u8> = Vec::new();

    out.push(0x47);
    out.push(0x44);
    out.push(0x50);
    out.push(0x43);
    proof {
        assert(out@ =~= magic());
    }
    version.write_to(&mut out, ());
    gv.write_to(&mut out, ());
    let ghost before_zeros = out@;
    let mut z: usize = 0;
    while z < 64
        invariant
            z <= 64,
            out@ == before_zeros + zeros(z as int),
        decreases 64 - z,
    {
        out.push(0);
        z = z + 1;
        proof {
            assert(out@ =~= before_zeros + zeros(z as int));
        }
    }
    let count: u32 = #[verifier::truncate] (n as u32);
    count.write_to(&mut out, ());
    let ghost header = header_bytes(version, gv, items.len() as u32);
    proof {
        assert(out@ =~= header);
        assert(header.len() == 88);
        assert(items.take(0) =~= Seq::empty());
    }

    // Table pass: every record is written with a placeholder offset while its
    // patch position is recorded.
    let mut disk: Vec<PckEntry> = Vec::new();
    let mut j: usize = 0;
    while j < n
        invariant
            j <= n,
            n == items.len(),
            items == store@,
            a == alignment as int,
            header == header_bytes(version, gv, items.len() as u32),
            header.len() == 88,
            out@ == header + table_bytes_mix(items.take(j as int), 0, a, 0),
            out@.len() == 88 + table_len(items.take(j as int)),
            disk@.len() == j,
            forall|k: int| 0 <= k < j ==> #[trigger] disk@[k]@ == pass_one_entry(items, k),
        decreases n - j,
    {
        let ghost jj = j as int;
        let base = out.len();
        let e0 = store.get(j);
        let mut e = e0.to_pck_entry();
        e.write_to(&mut out, ());
        let cur = out.len();
        proof {
            assert(e@.name.len() == 6 + items[jj].name.len());
            assert(cur == base + 42 + items[jj].name.len());
        }
        e.set_offset_pos(base as u64);
        disk.push(e);
        j = j + 1;
        proof {
            lemma_ph_snoc(items, 0, a, jj);
            lemma_table_len_take_step(items, jj);
            assert(e.encoding(()) == item_record(items[jj], 0u64));
            assert(out@ =~= header + table_bytes_mix(items.take(jj + 1), 0, a, 0));
            assert(disk@[jj]@ == pass_one_entry(items, jj));
        }
    }
    proof {
        assert(items.take(n as int) =~= items);
        lemma_table_len_nonneg(items);
    }
    let ghost te = 88 + table_len(items);
    pad_to_alignment(&mut out, alignment);
    let ghost ps = payload_start(items, a);
    proof {
        lemma_pad_len(te, a);
        lemma_mix_nonpos(items, 0, ps, a, 0, 0);
        assert(out@ =~= header + table_bytes_mix(items, ps, a, 0) + zeros(pad_len(te, a)));
        lemma_payload_len(items, ps, a, 0);
        assert(items.take(0) =~= Seq::empty());
        assert(out@.len() == entry_offset(items, ps, a, 0));
        assert(out@ =~= header + table_bytes_mix(items, ps, a, 0) + zeros(pad_len(te, a))
            + payload_bytes(items.take(0), ps, a));
    }

    // Payload pass: append each content block, pad, and patch the recorded
    // offset field with the block's true absolute position.
    let mut j: usize = 0;
    while j < n
        invariant
            j <= n,
            n == items.len(),
            items == store@,
            a == alignment as int,
            header == header_bytes(version, gv, items.len() as u32),
            header.len() == 88,
            te == 88 + table_len(items),
            te >= 88,
            ps == payload_start(items, a),
            ps >= te,
            disk@.len() == n,
            forall|k: int| 0 <= k < n ==> #[trigger] disk@[k]@ == pass_one_entry(items, k),
            out@ == header + table_bytes_mix(items, ps, a, j as int) + zeros(pad_len(te, a))
                + payload_bytes(items.take(j as int), ps, a),
            out@.len() == entry_offset(items, ps, a, j as int),
        decreases n - j,
    {
        let ghost jj = j as int;
        let ghost mid0 = out@;
        let off = out.len();
        let e0 = store.get(j);
        append_bytes(&mut out, &e0.content);
        pad_to_alignment(&mut out, alignment);
        proof {
            lemma_payload_snoc(items, ps, a, jj);
            lemma_payload_len(items, ps, a, jj + 1);
            assert(out@ =~= header + table_bytes_mix(items, ps, a, jj) + zeros(pad_len(te, a))
                + payload_bytes(items.take(jj + 1), ps, a));
            lemma_mix_patch(items, ps, a, jj);
            lemma_mix_len(items, ps, a, jj);
            lemma_mix_len(items, ps, a, jj + 1);
            lemma_table_len_take_le(items, jj);
        }
        let ghost q = table_len(items.take(jj)) + 10 + items[jj].name.len();
        proof {
            assert(q + 8 <= table_len(items));
            assert(disk@[jj]@.offset_pos == (88 + q) as u64);
            assert(out@.len() == entry_offset(items, ps, a, jj + 1));
            assert(out@.len() >= ps);
        }
        let ppos_u64 = disk[j].offset_pos;
        let ppos = ppos_u64 as usize;
        patch_u64_at(&mut out, ppos, off as u64);
        j = j + 1;
        proof {
            let mid = header + table_bytes_mix(items, ps, a, jj) + zeros(pad_len(te, a))
                + payload_bytes(items.take(jj + 1), ps, a);
            let target = header + table_bytes_mix(items, ps, a, jj + 1) + zeros(pad_len(te, a))
                + payload_bytes(items.take(jj + 1), ps, a);
            let tl = table_len(items);
            let zl = pad_len(te, a);
            assert(zl >= 0);
            assert(off == entry_offset(items, ps, a, jj));
            assert forall|idx: int| 0 <= idx < mid.len() implies target[idx] == (if 88 + q <= idx
                < 88 + q + 8 {
                u64_le(off as u64)[idx - (88 + q)]
            } else {
                mid[idx]
            }) by {
                if 88 <= idx < 88 + tl {
                    assert(mid[idx] == table_bytes_mix(items, ps, a, jj)[idx - 88]);
                    assert(target[idx] == table_bytes_mix(items, ps, a, jj + 1)[idx - 88]);
                    assert(u64_le(entry_offset(items, ps, a, jj) as u64) == u64_le(off as u64));
                }
            }
            assert(out@ =~= target);
        }
    }
    proof {
        assert(items.take(n as int) =~= items);
    }
    out
}

/// The whole edit as one function of the input bytes, the overlay inputs and
/// the alignment: decode, reject an archive whose table points outside the
/// buffer (or whose name is shorter than the virtual-path prefix) as
/// truncated, merge the overlays, and re-encode.
pub open spec fn transform(b: Seq<u8>, overlays: Seq<ItemModel>, a: int) -> Result<
    Seq<u8>,
    PckError,
> {
    match parse_pck(b) {
        Err(e) => Err(e),
        Ok(m) => if exists|k: int|
            0 <= k < m.entries.len() && !entry_in_range(#[trigger] m.entries[k], b.len() as int) {
            Err(PckError::Truncated)
        } else {
            Ok(
                build_bytes(
                    m.version,
                    m.godot_version,
                    apply_overlays(from_decoded_spec(m.entries, b), overlays),
                    a,
                ),
            )
        },
    }
}

/// Rewrites an archive in memory: decodes `bytes`, applies each overlay in
/// the order supplied, and encodes the merged entries with the given
/// alignment. Returns exactly what `transform` assigns to these inputs; the
/// original buffer is never modified.
pub fn rewrite_archive(bytes: &Vec<u8>, overlays: &Vec<RuntimePckEntry>, alignment: usize) -> (r:
    Result<Vec<u8>, PckError>)
    ensures
        match r {
            Ok(out) => transform(bytes@, item_models(overlays@), alignment as int) == Ok::<
                Seq<u8>,
                PckError,
            >(out@),
            Err(e) => transform(bytes@, item_models(overlays@), alignment as int) == Err::<
                Seq<u8>,
                PckError,
            >(e),
        },
{
    let pck = match Pck::decode(bytes) {
        Ok(p) => p,
        Err(e) => {
            return Err(e);
        },
    };
    let blen = bytes.len();
    let blen64 = blen as u64;
    let ne = pck.entries.len();
    let mut i: usize = 0;
    while i < ne
        invariant
            i <= ne,
            ne == pck.entries@.len(),
            blen64 == bytes@.len(),
            parse_pck(bytes@) == Ok::<PckModel, PckError>(pck@),
            forall|k: int|
                0 <= k < i ==> entry_in_range(#[trigger] pck@.entries[k], bytes@.len() as int),
        decreases ne - i,
    {
        let e = &pck.entries[i];
        if e.name.len() < 6 || e.size > blen64 || e.offset > blen64 - e.size {
            proof {
                assert(!entry_in_range(pck@.entries[i as int], bytes@.len() as int));
            }
            return Err(PckError::Truncated);
        }
        proof {
            assert(entry_in_range(pck@.entries[i as int], bytes@.len() as int));
        }
        i = i + 1;
    }
    proof {
        assert forall|k: int| 0 <= k < pck.entries@.len() implies entry_in_range(
            #[trigger] pck.entries@[k]@,
            bytes@.len() as int,
        ) by {
            assert(pck@.entries[k] == pck.entries@[k]@);
        }
    }
    let mut store = EntryStore::from_decoded(&pck.entries, bytes);
    let ghost base = store@;
    let no = overlays.len();
    let mut i: usize = 0;
    while i < no
        invariant
            i <= no,
            no == overlays@.len(),
            store@ == apply_overlays(base, item_models(overlays@).take(i as int)),
        decreases no - i,
    {
        let o = &overlays[i];
        let name = crate::codec::slice_range(&o.name, 0, o.name.len());
        let content = crate::codec::slice_range(&o.content, 0, o.content.len());
        proof {
            assert(name@ =~= o@.name);
            assert(content@ =~= o@.content);
        }
        store.apply_overlay(name, content);
        i = i + 1;
        proof {
            let ms = item_models(overlays@);
            assert(ms.take(i as int).drop_last() =~= ms.take(i as int - 1));
            assert(ms.take(i as int).last() == overlays@[i as int - 1]@);
        }
    }
    proof {
        assert(item_models(overlays@).take(no as int) =~= item_models(overlays@));
    }
    let out = build_archive(pck.version, pck.godot_version, &store, alignment);
    Ok(out)
}

} // verus!
