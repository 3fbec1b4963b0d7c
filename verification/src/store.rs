//! The order-preserving, name-keyed entry store: decoded entries merged with
//! overlay replacements and additions.
//!
//! Order invariant: entries already present keep their relative order; an
//! overlay whose name matches an existing entry replaces only that entry's
//! content in place; a new name is appended at the end. Nothing is ever
//! removed.

use vstd::prelude::*;
use crate::codec::slice_range;
use crate::hash::{md5_digest, md5_of};
use crate::pck::{name_prefix, EntryModel, PckEntry};

verus! {

/// One working entry: a lookup key (the stored name with the virtual-path
/// prefix stripped) and its owned content bytes.
pub struct RuntimePckEntry {
    pub name: Vec<u8>,
    pub content: Vec<u8>,
}

/// The mathematical image of a working entry.
pub ghost struct ItemModel {
    pub name: Seq<u8>,
    pub content: Seq<u8>,
}

impl View for RuntimePckEntry {
    type V = ItemModel;

    open spec fn view(&self) -> ItemModel {
        ItemModel { name: self.name@, content: self.content@ }
    }
}

/// The models of a sequence of working entries.
pub open spec fn item_models(es: Seq<RuntimePckEntry>) -> Seq<ItemModel> {
    es.map_values(|e: RuntimePckEntry| e@)
}

/// The position of the first item named `name`, or -1 if none is.
pub open spec fn find_index(items: Seq<ItemModel>, name: Seq<u8>) -> int
    decreases items.len(),
{
    if items.len() == 0 {
        -1
    } else if items[0].name == name {
        0
    } else {
        let r = find_index(items.drop_first(), name);
        if r < 0 {
            -1
        } else {
            r + 1
        }
    }
}

/// Whether some item is named `name`.
pub open spec fn has_name(items: Seq<ItemModel>, name: Seq<u8>) -> bool {
    find_index(items, name) >= 0
}

/// Update-or-append: replace the content of the first item named `name`, or
/// append a new item at the end.
pub open spec fn upsert(items: Seq<ItemModel>, name: Seq<u8>, content: Seq<u8>) -> Seq<ItemModel> {
    let i = find_index(items, name);
    if i < 0 {
        items.push(ItemModel { name, content })
    } else {
        items.update(i, ItemModel { name, content })
    }
}

/// Names are unique across the store.
pub open spec fn wf_items(items: Seq<ItemModel>) -> bool {
    forall|i: int, j: int| 0 <= i < j < items.len() ==> items[i].name != items[j].name
}

/// What `find_index` finds: the first position with the name, if any.
pub proof fn lemma_find_index(items: Seq<ItemModel>, name: Seq<u8>)
    ensures
        find_index(items, name) < 0 ==> forall|k: int|
            0 <= k < items.len() ==> items[k].name != name,
        find_index(items, name) >= 0 ==> {
            let i = find_index(items, name);
            &&& 0 <= i < items.len()
            &&& items[i].name == name
            &&& forall|k: int| 0 <= k < i ==> items[k].name != name
        },
    decreases items.len(),
{
    if items.len() > 0 {
        lemma_find_index(items.drop_first(), name);
        if items[0].name != name {
            let r = find_index(items.drop_first(), name);
            assert(forall|k: int|
                1 <= k < items.len() ==> items[k] == items.drop_first()[k - 1]);
        }
    }
}

/// Law: replacing an existing name's content keeps the entry at its position
/// and leaves every other entry untouched.
pub proof fn lemma_override_preserves_position(
    items: Seq<ItemModel>,
    name: Seq<u8>,
    content: Seq<u8>,
    i: int,
)
    requires
        wf_items(items),
        0 <= i < items.len(),
        items[i].name == name,
    ensures
        upsert(items, name, content) == items.update(i, ItemModel { name, content }),
        upsert(items, name, content).len() == items.len(),
        forall|k: int|
            0 <= k < items.len() && k != i ==> upsert(items, name, content)[k] == items[k],
{
    lemma_find_index(items, name);
    let f = find_index(items, name);
    assert(f >= 0);
    if f < i {
        assert(items[f].name == name && items[i].name == name);
        assert(false);
    }
    if f > i {
        assert(items[i].name != name);
        assert(false);
    }
}

/// Law: a name not yet present is appended at the end, after every existing
/// entry, which all stay unchanged.
pub proof fn lemma_addition_appends(items: Seq<ItemModel>, name: Seq<u8>, content: Seq<u8>)
    requires
        forall|k: int| 0 <= k < items.len() ==> items[k].name != name,
    ensures
        upsert(items, name, content) == items.push(ItemModel { name, content }),
        upsert(items, name, content).len() == items.len() + 1,
        forall|k: int| 0 <= k < items.len() ==> upsert(items, name, content)[k] == items[k],
{
    lemma_find_index(items, name);
    if find_index(items, name) >= 0 {
        assert(items[find_index(items, name)].name == name);
        assert(false);
    }
}

/// Law: two additions of distinct fresh names land at the end in the order
/// they were supplied.
pub proof fn lemma_additions_append_in_order(
    items: Seq<ItemModel>,
    name1: Seq<u8>,
    content1: Seq<u8>,
    name2: Seq<u8>,
    content2: Seq<u8>,
)
    requires
        forall|k: int| 0 <= k < items.len() ==> items[k].name != name1,
        forall|k: int| 0 <= k < items.len() ==> items[k].name != name2,
        name1 != name2,
    ensures
        upsert(upsert(items, name1, content1), name2, content2) == items.push(
            ItemModel { name: name1, content: content1 },
        ).push(ItemModel { name: name2, content: content2 }),
{
    lemma_addition_appends(items, name1, content1);
    let items1 = items.push(ItemModel { name: name1, content: content1 });
    lemma_addition_appends(items1, name2, content2);
}

/// Upserting keeps names unique.
pub proof fn lemma_upsert_wf(items: Seq<ItemModel>, name: Seq<u8>, content: Seq<u8>)
    requires
        wf_items(items),
    ensures
        wf_items(upsert(items, name, content)),
        has_name(upsert(items, name, content), name),
{
    lemma_find_index(items, name);
    let r = upsert(items, name, content);
    let f = find_index(items, name);
    if f < 0 {
        assert forall|i: int, j: int| 0 <= i < j < r.len() implies r[i].name != r[j].name by {
            if j < items.len() {
            } else {
                assert(r[j].name == name);
                assert(r[i] == items[i]);
            }
        }
    } else {
        assert forall|i: int, j: int| 0 <= i < j < r.len() implies r[i].name != r[j].name by {
            assert(items[i].name != items[j].name);
        }
    }
    lemma_find_index(r, name);
    if find_index(r, name) < 0 {
        if f < 0 {
            assert(r[items.len() as int].name == name);
        } else {
            assert(r[f].name == name);
        }
        assert(false);
    }
}

/// Whether some overlay input carries `name`.
pub open spec fn overlay_has(o: Seq<ItemModel>, name: Seq<u8>) -> bool {
    exists|k: int| 0 <= k < o.len() && (#[trigger] o[k]).name == name
}

/// The content of the last overlay input named `name`.
pub open spec fn last_content(o: Seq<ItemModel>, name: Seq<u8>) -> Seq<u8>
    recommends
        overlay_has(o, name),
    decreases o.len(),
{
    if o.len() == 0 {
        Seq::empty()
    } else if o.last().name == name {
        o.last().content
    } else {
        last_content(o.drop_last(), name)
    }
}

/// What applying a whole overlay sequence leaves at each position: names at
/// existing positions are untouched; an entry whose name the overlays carry
/// holds the last content supplied for it; any other entry is exactly as it
/// was, at its old position.
pub proof fn lemma_apply_overlays_char(s: Seq<ItemModel>, o: Seq<ItemModel>, i: int)
    requires
        wf_items(s),
        0 <= i < apply_overlays(s, o).len(),
    ensures
        ({
            let r = apply_overlays(s, o);
            &&& wf_items(r)
            &&& r.len() >= s.len()
            &&& (i < s.len() ==> r[i].name == s[i].name)
            &&& (overlay_has(o, r[i].name) ==> r[i].content == last_content(o, r[i].name))
            &&& (!overlay_has(o, r[i].name) ==> i < s.len() && r[i] == s[i])
        }),
    decreases o.len(),
{
    let r = apply_overlays(s, o);
    lemma_apply_overlays_wf(s, o);
    lemma_apply_overlays_len(s, o);
    if o.len() == 0 {
        assert(!overlay_has(o, r[i].name)) by {
            if overlay_has(o, r[i].name) {
                let k = choose|k: int| 0 <= k < o.len() && (#[trigger] o[k]).name == r[i].name;
            }
        }
    } else {
        let o1 = o.drop_last();
        let ol = o.last();
        let r1 = apply_overlays(s, o1);
        lemma_apply_overlays_wf(s, o1);
        lemma_apply_overlays_len(s, o1);
        lemma_find_index(r1, ol.name);
        let f = find_index(r1, ol.name);
        assert(r == upsert(r1, ol.name, ol.content));
        // where the last overlay landed
        if f >= 0 {
            assert(r == r1.update(f, ItemModel { name: ol.name, content: ol.content }));
        } else {
            assert(r == r1.push(ItemModel { name: ol.name, content: ol.content }));
        }
        let landed: int = if f >= 0 {
            f
        } else {
            r1.len() as int
        };
        assert(r[landed].name == ol.name && r[landed].content == ol.content);
        assert(overlay_has(o, ol.name)) by {
            assert(0 <= o.len() - 1 < o.len() && o[o.len() - 1].name == ol.name);
        }
        if i == landed {
            assert(last_content(o, ol.name) == ol.content);
            if i < s.len() {
                if f >= 0 {
                    lemma_apply_overlays_char(s, o1, i);
                }
            }
        } else {
            assert(r[i] == r1[i]);
            lemma_apply_overlays_char(s, o1, i);
            assert(r[i].name != ol.name) by {
                if f >= 0 {
                    if r1[i].name == ol.name {
                        assert(r1[f].name == ol.name);
                        assert(f != i);
                        assert(false);
                    }
                } else {
                    if r1[i].name == ol.name {
                        assert(false);
                    }
                }
            }
            assert(overlay_has(o, r[i].name) == overlay_has(o1, r[i].name)) by {
                if overlay_has(o1, r[i].name) {
                    let k = choose|k: int|
                        0 <= k < o1.len() && (#[trigger] o1[k]).name == r[i].name;
                    assert(o[k].name == r[i].name);
                }
                if overlay_has(o, r[i].name) {
                    let k = choose|k: int| 0 <= k < o.len() && (#[trigger] o[k]).name == r[i].name;
                    assert(k != o.len() - 1);
                    assert(o1[k].name == r[i].name);
                }
            }
            if overlay_has(o1, r[i].name) {
                assert(last_content(o, r[i].name) == last_content(o1, r[i].name));
            }
        }
    }
}

/// Applying overlays keeps the store well-formed.
pub proof fn lemma_apply_overlays_wf(s: Seq<ItemModel>, o: Seq<ItemModel>)
    requires
        wf_items(s),
    ensures
        wf_items(apply_overlays(s, o)),
    decreases o.len(),
{
    if o.len() > 0 {
        lemma_apply_overlays_wf(s, o.drop_last());
        lemma_upsert_wf(apply_overlays(s, o.drop_last()), o.last().name, o.last().content);
    }
}

/// Applying overlays never removes an entry.
pub proof fn lemma_apply_overlays_len(s: Seq<ItemModel>, o: Seq<ItemModel>)
    ensures
        apply_overlays(s, o).len() >= s.len(),
    decreases o.len(),
{
    if o.len() > 0 {
        lemma_apply_overlays_len(s, o.drop_last());
        lemma_find_index(apply_overlays(s, o.drop_last()), o.last().name);
    }
}

/// Every overlay name ends up present in the store.
pub proof fn lemma_apply_overlays_has(s: Seq<ItemModel>, o: Seq<ItemModel>, k: int)
    requires
        wf_items(s),
        0 <= k < o.len(),
    ensures
        has_name(apply_overlays(s, o), o[k].name),
    decreases o.len(),
{
    let o1 = o.drop_last();
    let ol = o.last();
    let r1 = apply_overlays(s, o1);
    lemma_apply_overlays_wf(s, o1);
    lemma_upsert_wf(r1, ol.name, ol.content);
    if k == o.len() - 1 {
    } else {
        lemma_apply_overlays_has(s, o1, k);
        lemma_find_index(r1, o1[k].name);
        let idx = find_index(r1, o1[k].name);
        let r = apply_overlays(s, o);
        lemma_find_index(r1, ol.name);
        let f = find_index(r1, ol.name);
        assert(r[idx].name == o[k].name) by {
            if f >= 0 {
                assert(r == r1.update(f, ItemModel { name: ol.name, content: ol.content }));
                if f == idx {
                    assert(r1[f].name == ol.name);
                }
            } else {
                assert(r == r1.push(ItemModel { name: ol.name, content: ol.content }));
            }
        }
        lemma_find_index(r, o[k].name);
        if find_index(r, o[k].name) < 0 {
            assert(r[idx].name != o[k].name);
            assert(false);
        }
    }
}

/// Law (overlay stability): applying the same overlay inputs a second time
/// changes nothing — each name already holds the last content supplied for it.
pub proof fn lemma_apply_overlays_idem(s: Seq<ItemModel>, o: Seq<ItemModel>)
    requires
        wf_items(s),
    ensures
        apply_overlays(apply_overlays(s, o), o) == apply_overlays(s, o),
{
    let r = apply_overlays(s, o);
    let r2 = apply_overlays(r, o);
    lemma_apply_overlays_wf(s, o);
    lemma_apply_overlays_len(r, o);
    // the second pass only updates: every overlay name is already present
    assert forall|k: int| 0 <= k < o.len() implies has_name(r, (#[trigger] o[k]).name) by {
        lemma_apply_overlays_has(s, o, k);
    }
    lemma_apply_overlays_same_len(r, o);
    assert(r2.len() == r.len());
    assert forall|i: int| 0 <= i < r.len() implies r2[i] == r[i] by {
        lemma_apply_overlays_char(r, o, i);
        lemma_apply_overlays_char(s, o, i);
        assert(r2[i].name == r[i].name);
        if overlay_has(o, r[i].name) {
            assert(r2[i].content == last_content(o, r[i].name));
            assert(r[i].content == last_content(o, r[i].name));
            assert(r2[i] == (ItemModel { name: r2[i].name, content: r2[i].content }));
            assert(r[i] == (ItemModel { name: r[i].name, content: r[i].content }));
        } else {
            assert(r2[i] == r[i]);
        }
    }
    assert(r2 =~= r);
}

/// When every overlay name is already present, applying the overlays adds no
/// entry.
proof fn lemma_apply_overlays_same_len(r: Seq<ItemModel>, o: Seq<ItemModel>)
    requires
        wf_items(r),
        forall|k: int| 0 <= k < o.len() ==> has_name(r, (#[trigger] o[k]).name),
    ensures
        apply_overlays(r, o).len() == r.len(),
    decreases o.len(),
{
    if o.len() > 0 {
        let o1 = o.drop_last();
        let ol = o.last();
        let r1 = apply_overlays(r, o1);
        lemma_apply_overlays_same_len(r, o1);
        lemma_apply_overlays_wf(r, o1);
        lemma_find_index(r, ol.name);
        let idx = find_index(r, ol.name);
        assert(0 <= idx < r.len() && r[idx].name == ol.name);
        lemma_apply_overlays_char(r, o1, idx);
        assert(r1[idx].name == ol.name);
        lemma_find_index(r1, ol.name);
        if find_index(r1, ol.name) < 0 {
            assert(r1[idx].name != ol.name);
            assert(false);
        }
    }
}

/// Rebuilding the store from entries that decode back to unique-named items
/// recovers those items exactly.
pub proof fn lemma_redecode(es: Seq<EntryModel>, b: Seq<u8>, items: Seq<ItemModel>)
    requires
        es.len() == items.len(),
        wf_items(items),
        forall|j: int|
            0 <= j < es.len() ==> strip_prefix((#[trigger] es[j]).name) == items[j].name
                && content_of(es[j], b) == items[j].content,
    ensures
        from_decoded_spec(es, b) == items,
    decreases es.len(),
{
    if es.len() > 0 {
        let es1 = es.drop_last();
        let items1 = items.drop_last();
        lemma_redecode(es1, b, items1);
        assert forall|k: int| 0 <= k < items1.len() implies items1[k].name != items.last().name by {
            assert(items[k].name != items[items.len() - 1].name);
        }
        lemma_addition_appends(items1, items.last().name, items.last().content);
        assert(strip_prefix(es.last().name) == items.last().name);
        assert(content_of(es.last(), b) == items.last().content);
        assert(items1.push(
            ItemModel { name: items.last().name, content: items.last().content },
        ) =~= items);
    } else {
        assert(from_decoded_spec(es, b) =~= items);
    }
}

/// A store built from decoded entries always has unique names.
pub proof fn lemma_from_decoded_wf(es: Seq<EntryModel>, b: Seq<u8>)
    ensures
        wf_items(from_decoded_spec(es, b)),
    decreases es.len(),
{
    if es.len() > 0 {
        lemma_from_decoded_wf(es.drop_last(), b);
        lemma_upsert_wf(
            from_decoded_spec(es.drop_last(), b),
            strip_prefix(es.last().name),
            content_of(es.last(), b),
        );
    }
}

/// Byte-for-byte comparison of two vectors.
pub fn bytes_eq(a: &Vec<u8>, b: &Vec<u8>) -> (r: bool)
    ensures
        r == (a@ == b@),
{
    if a.len() != b.len() {
        return false;
    }
    let n = a.len();
    let mut i: usize = 0;
    while i < n
        invariant
            i <= n,
            n == a@.len() == b@.len(),
            forall|k: int| 0 <= k < i ==> a@[k] == b@[k],
        decreases n - i,
    {
        if a[i] != b[i] {
            return false;
        }
        i = i + 1;
    }
    proof {
        assert(a@ =~= b@);
    }
    true
}

/// The key a decoded entry contributes: its stored name with the virtual-path
/// prefix stripped.
pub open spec fn strip_prefix(name: Seq<u8>) -> Seq<u8> {
    name.skip(6)
}

/// The content a decoded entry points at within the source buffer.
pub open spec fn content_of(e: EntryModel, b: Seq<u8>) -> Seq<u8> {
    b.subrange(e.offset as int, e.offset + e.size)
}

/// Whether a decoded entry can be materialized from the source buffer: the
/// name is at least as long as the virtual-path prefix it carries, and the
/// payload lies inside the buffer.
pub open spec fn entry_in_range(e: EntryModel, blen: int) -> bool {
    &&& e.name.len() >= 6
    &&& e.offset + e.size <= blen
}

/// The store built from decoded entries in file order, by update-or-append.
pub open spec fn from_decoded_spec(es: Seq<EntryModel>, b: Seq<u8>) -> Seq<ItemModel>
    decreases es.len(),
{
    if es.len() == 0 {
        Seq::empty()
    } else {
        upsert(
            from_decoded_spec(es.drop_last(), b),
            strip_prefix(es.last().name),
            content_of(es.last(), b),
        )
    }
}

/// A sequence of overlay inputs applied one at a time, in the order supplied.
pub open spec fn apply_overlays(items: Seq<ItemModel>, overlays: Seq<ItemModel>) -> Seq<ItemModel>
    decreases overlays.len(),
{
    if overlays.len() == 0 {
        items
    } else {
        upsert(
            apply_overlays(items, overlays.drop_last()),
            overlays.last().name,
            overlays.last().content,
        )
    }
}

/// The order-preserving name-keyed collection of working entries.
pub struct EntryStore {
    entries: Vec<RuntimePckEntry>,
}

impl View for EntryStore {
    type V = Seq<ItemModel>;

    closed spec fn view(&self) -> Seq<ItemModel> {
        self.entries@.map_values(|e: RuntimePckEntry| e@)
    }
}

impl EntryStore {
    /// An empty store.
    pub fn new() -> (s: EntryStore)
        ensures
            s@ == Seq::<ItemModel>::empty(),
    {
        let s = EntryStore { entries: Vec::new() };
        proof {
            assert(s@ =~= Seq::<ItemModel>::empty());
        }
        s
    }

    /// How many entries the store holds.
    pub fn len(&self) -> (n: usize)
        ensures
            n == self@.len(),
    {
        self.entries.len()
    }

    /// A reference to the entry at `i`, in store order.
    pub fn get(&self, i: usize) -> (e: &RuntimePckEntry)
        requires
            i < self@.len(),
        ensures
            e@ == self@[i as int],
    {
        &self.entries[i]
    }

    /// Applies one overlay input: replaces the content of the entry with this
    /// name, or appends a new entry at the end.
    pub fn apply_overlay(&mut self, name: Vec<u8>, content: Vec<u8>)
        ensures
            final(self)@ == upsert(old(self)@, name@, content@),
    {
        let n = self.entries.len();
        let mut i: usize = 0;
        while i < n
            invariant
                i <= n,
                n == self@.len(),
                self@ == old(self)@,
                self.entries@.len() == n,
                forall|k: int| 0 <= k < i ==> self@[k].name != name@,
            decreases n - i,
        {
            if bytes_eq(&self.entries[i].name, &name) {
                proof {
                    lemma_find_index(self@, name@);
                    assert(self@[i as int].name == name@);
                    let f = find_index(self@, name@);
                    assert(f >= 0);
                    if f < i as int {
                        assert(self@[f].name != name@);
                        assert(false);
                    }
                    if f > i as int {
                        assert(self@[i as int].name != name@);
                        assert(false);
                    }
                }
                let e = RuntimePckEntry { name, content };
                self.entries[i] = e;
                proof {
                    assert(self@ =~= upsert(old(self)@, e@.name, e@.content));
                }
                return ;
            }
            i = i + 1;
        }
        proof {
            lemma_find_index(self@, name@);
            assert(find_index(self@, name@) < 0) by {
                if find_index(self@, name@) >= 0 {
                    assert(self@[find_index(self@, name@)].name == name@);
                }
            }
        }
        let e = RuntimePckEntry { name, content };
        self.entries.push(e);
        proof {
            assert(self@ =~= old(self)@.push(e@));
            assert(self@ =~= upsert(old(self)@, e@.name, e@.content));
        }
    }

    /// Builds the store from decoded entries in file order: each contributes
    /// its prefix-stripped name as key and the payload bytes its offset and
    /// size select from the source buffer.
    pub fn from_decoded(entries: &Vec<PckEntry>, bytes: &Vec<u8>) -> (s: EntryStore)
        requires
            forall|k: int|
                0 <= k < entries@.len() ==> entry_in_range(#[trigger] entries@[k]@, bytes@.len() as int),
        ensures
            s@ == from_decoded_spec(crate::pck::entry_models(entries@), bytes@),
    {
        let blen = bytes.len();
        let mut s = EntryStore::new();
        let n = entries.len();
        let mut i: usize = 0;
        while i < n
            invariant
                i <= n,
                n == entries@.len(),
                blen == bytes@.len(),
                forall|k: int|
                    0 <= k < entries@.len() ==> entry_in_range(
                        #[trigger] entries@[k]@,
                        bytes@.len() as int,
                    ),
                s@ == from_decoded_spec(crate::pck::entry_models(entries@.take(i as int)), bytes@),
            decreases n - i,
        {
            let e = &entries[i];
            proof {
                assert(entry_in_range(entries@[i as int]@, bytes@.len() as int));
                assert(e@ == entries@[i as int]@);
            }
            let key = slice_range(&e.name, 6, e.name.len());
            let off = e.offset as usize;
            let content = slice_range(bytes, off, off + (e.size as usize));
            proof {
                assert(key@ =~= strip_prefix(e@.name));
                assert(content@ =~= content_of(e@, bytes@));
            }
            s.apply_overlay(key, content);
            i = i + 1;
            proof {
                let ms = crate::pck::entry_models(entries@.take(i as int));
                assert(ms.drop_last() =~= crate::pck::entry_models(entries@.take(i as int - 1)));
                assert(ms.last() == entries@[i as int - 1]@);
            }
        }
        proof {
            assert(entries@.take(n as int) =~= entries@);
        }
        s
    }

}

impl RuntimePckEntry {
    /// Turns this working entry into its on-disk table record: virtual-path
    /// prefix re-added, size and digest computed from the content, offset and
    /// patch position still to be filled in.
    pub fn to_pck_entry(&self) -> (e: PckEntry)
        ensures
            e@.name == name_prefix() + self@.name,
            e@.offset == 0,
            e@.offset_pos == 0,
            e@.size == self@.content.len() as u64,
            e@.md5 == md5_of(self@.content)@,
    {
        let md5 = md5_digest(&self.content);
        let mut name: Vec<u8> = Vec::new();
        name.push(0x72);
        name.push(0x65);
        name.push(0x73);
        name.push(0x3a);
        name.push(0x2f);
        name.push(0x2f);
        let klen = self.name.len();
        let mut i: usize = 0;
        while i < klen
            invariant
                i <= klen,
                klen == self@.name.len(),
                name@ == name_prefix() + self@.name.subrange(0, i as int),
            decreases klen - i,
        {
            name.push(self.name[i]);
            i = i + 1;
            proof {
                assert(name@ =~= name_prefix() + self@.name.subrange(0, i as int));
            }
        }
        proof {
            assert(name@ =~= name_prefix() + self@.name);
        }
        PckEntry { name, offset: 0, offset_pos: 0, size: self.content.len() as u64, md5 }
    }
}

} // verus!
