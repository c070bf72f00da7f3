//! Whole-state snapshot codec.
//!
//! A coordinator snapshot is one self-describing byte document holding, per
//! named store: the dimensionality, the prompt-annotation list, the prompt
//! list, the prompt-batch size, the identifier counter, and the full list of
//! records. Integers are little-endian and fixed-width, strings are
//! length-prefixed UTF-8, lists are count-prefixed, so every value
//! round-trips exactly — including fixed-point vector components, which a
//! decimal text format could distort.

use vstd::prelude::*;
use vstd::string::StrSliceExecFns;
use vstd::utf8::{valid_utf8, decode_utf8, encode_utf8};

use crate::embedding::{
    DataEntry, DataEntryView, StoreView, InMemoryVectorStore, views_of, unique_ids,
};
use crate::ranking::MAX_DIMENSIONS;

verus! {

/// Little-endian bytes of a 64-bit integer.
pub open spec fn u64_bytes(v: u64) -> Seq<u8> {
    seq![
        (v & 0xff) as u8,
        ((v >> 8) & 0xff) as u8,
        ((v >> 16) & 0xff) as u8,
        ((v >> 24) & 0xff) as u8,
        ((v >> 32) & 0xff) as u8,
        ((v >> 40) & 0xff) as u8,
        ((v >> 48) & 0xff) as u8,
        ((v >> 56) & 0xff) as u8,
    ]
}

/// A 64-bit integer assembled from little-endian bytes.
pub open spec fn u64_of_bytes(
    b0: u8,
    b1: u8,
    b2: u8,
    b3: u8,
    b4: u8,
    b5: u8,
    b6: u8,
    b7: u8,
) -> u64 {
    (b0 as u64) | ((b1 as u64) << 8) | ((b2 as u64) << 16) | ((b3 as u64) << 24) | ((b4
        as u64) << 32) | ((b5 as u64) << 40) | ((b6 as u64) << 48) | ((b7 as u64) << 56)
}

proof fn lemma_u64_bytes_round_trip(v: u64)
    ensures
        u64_of_bytes(
            u64_bytes(v)[0],
            u64_bytes(v)[1],
            u64_bytes(v)[2],
            u64_bytes(v)[3],
            u64_bytes(v)[4],
            u64_bytes(v)[5],
            u64_bytes(v)[6],
            u64_bytes(v)[7],
        ) == v,
{
    assert(((v & 0xff) as u8 as u64) | ((((v >> 8) & 0xff) as u8 as u64) << 8) | ((((v >> 16)
        & 0xff) as u8 as u64) << 16) | ((((v >> 24) & 0xff) as u8 as u64) << 24) | ((((v >> 32)
        & 0xff) as u8 as u64) << 32) | ((((v >> 40) & 0xff) as u8 as u64) << 40) | ((((v >> 48)
        & 0xff) as u8 as u64) << 48) | ((((v >> 56) & 0xff) as u8 as u64) << 56) == v)
        by (bit_vector);
}

/// Little-endian bytes of a fixed-point vector component.
pub open spec fn i16_bytes(x: i16) -> Seq<u8> {
    seq![((x as u16) & 0xff) as u8, (((x as u16) >> 8) & 0xff) as u8]
}

/// A vector component assembled from little-endian bytes.
pub open spec fn i16_of_bytes(b0: u8, b1: u8) -> i16 {
    ((b0 as u16) | ((b1 as u16) << 8)) as i16
}

proof fn lemma_i16_bytes_round_trip(x: i16)
    ensures
        i16_of_bytes(i16_bytes(x)[0], i16_bytes(x)[1]) == x,
{
    assert(((((x as u16) & 0xff) as u8 as u16) | (((((x as u16) >> 8) & 0xff) as u8 as u16) << 8))
        as i16 == x) by (bit_vector);
}

/// Encoding of one string: byte count, then UTF-8 bytes.
pub open spec fn enc_str(s: Seq<char>) -> Seq<u8> {
    u64_bytes(encode_utf8(s).len() as u64) + encode_utf8(s)
}

/// Encoding of the items of a string list.
pub open spec fn enc_str_items(l: Seq<Seq<char>>) -> Seq<u8>
    decreases l.len(),
{
    if l.len() == 0 {
        Seq::empty()
    } else {
        enc_str(l[0]) + enc_str_items(l.drop_first())
    }
}

/// Encoding of a string list: item count, then each item.
pub open spec fn enc_str_list(l: Seq<Seq<char>>) -> Seq<u8> {
    u64_bytes(l.len() as u64) + enc_str_items(l)
}

/// Encoding of the components of a vector.
pub open spec fn enc_vec_items(v: Seq<i16>) -> Seq<u8>
    decreases v.len(),
{
    if v.len() == 0 {
        Seq::empty()
    } else {
        i16_bytes(v[0]) + enc_vec_items(v.drop_first())
    }
}

/// Encoding of a vector: component count, then each component.
pub open spec fn enc_vec(v: Seq<i16>) -> Seq<u8> {
    u64_bytes(v.len() as u64) + enc_vec_items(v)
}

/// Encoding of one record: identifier, name, vector, descriptions.
pub open spec fn enc_entry(e: DataEntryView) -> Seq<u8> {
    u64_bytes(e.id as u64) + enc_str(e.name) + enc_vec(e.vector) + enc_str_list(e.descriptions)
}

/// Encoding of the records of a store.
pub open spec fn enc_entry_items(l: Seq<DataEntryView>) -> Seq<u8>
    decreases l.len(),
{
    if l.len() == 0 {
        Seq::empty()
    } else {
        enc_entry(l[0]) + enc_entry_items(l.drop_first())
    }
}

/// Encoding of one store: configuration, identifier counter, records.
pub open spec fn enc_store(v: StoreView) -> Seq<u8> {
    u64_bytes(v.dimensions as u64) + enc_str_list(v.prompt_annotations) + enc_str_list(v.prompts)
        + u64_bytes(v.prompt_size as u64) + u64_bytes(v.next_id as u64) + u64_bytes(
        v.entries.len() as u64,
    ) + enc_entry_items(v.entries)
}

/// Encoding of the whole coordinator snapshot: both stores, in the fixed
/// order.
pub open spec fn enc_shared(clothes: StoreView, face: StoreView) -> Seq<u8> {
    enc_store(clothes) + enc_store(face)
}

fn push_u64(out: &mut Vec<u8>, v: u64)
    ensures
        final(out)@ == old(out)@ + u64_bytes(v),
{
    out.push((v & 0xff) as u8);
    out.push(((v >> 8) & 0xff) as u8);
    out.push(((v >> 16) & 0xff) as u8);
    out.push(((v >> 24) & 0xff) as u8);
    out.push(((v >> 32) & 0xff) as u8);
    out.push(((v >> 40) & 0xff) as u8);
    out.push(((v >> 48) & 0xff) as u8);
    out.push(((v >> 56) & 0xff) as u8);
    proof {
        assert(out@ =~= old(out)@ + u64_bytes(v));
    }
}

fn push_i16(out: &mut Vec<u8>, x: i16)
    ensures
        final(out)@ == old(out)@ + i16_bytes(x),
{
    let u = x as u16;
    out.push((u & 0xff) as u8);
    out.push(((u >> 8) & 0xff) as u8);
    proof {
        assert(out@ =~= old(out)@ + i16_bytes(x));
    }
}

fn push_str(out: &mut Vec<u8>, s: &String)
    ensures
        final(out)@ == old(out)@ + enc_str(s@),
{
    let bytes: Vec<u8> = s.as_str().as_bytes_vec();
    push_u64(out, bytes.len() as u64);
    let ghost mid = out@;
    for i in 0..bytes.len()
        invariant
            bytes@ == encode_utf8(s@),
            out@ == mid + bytes@.take(i as int),
    {
        out.push(bytes[i]);
        proof {
            assert(out@ =~= mid + bytes@.take(i + 1));
        }
    }
    proof {
        assert(bytes@.take(bytes@.len() as int) =~= bytes@);
        assert(out@ =~= old(out)@ + enc_str(s@));
    }
}

fn push_str_list(out: &mut Vec<u8>, l: &Vec<String>)
    ensures
        final(out)@ == old(out)@ + enc_str_list(l.deep_view()),
{
    push_u64(out, l.len() as u64);
    let ghost mid = out@;
    for i in 0..l.len()
        invariant
            out@ == mid + enc_str_items(l.deep_view().take(i as int)),
    {
        proof {
            assert(l.deep_view().take(i as int).len() == i);
        }
        push_str(out, &l[i]);
        proof {
            lemma_enc_str_items_push(l.deep_view().take(i as int), l.deep_view()[i as int]);
            assert(l.deep_view().take(i as int).push(l.deep_view()[i as int]) =~= l.deep_view()
                .take(i + 1));
            assert(out@ =~= mid + enc_str_items(l.deep_view().take(i + 1)));
        }
    }
    proof {
        assert(l.deep_view().take(l.deep_view().len() as int) =~= l.deep_view());
        assert(l.deep_view().len() == l@.len());
        assert(out@ =~= old(out)@ + enc_str_list(l.deep_view()));
    }
}

proof fn lemma_enc_str_items_push(l: Seq<Seq<char>>, x: Seq<char>)
    ensures
        enc_str_items(l.push(x)) == enc_str_items(l) + enc_str(x),
    decreases l.len(),
{
    let t = l.push(x);
    if l.len() == 0 {
        assert(t.len() == 1);
        assert(t[0] == x);
        assert(t.drop_first() =~= Seq::<Seq<char>>::empty());
        assert(enc_str_items(t) == enc_str(x) + enc_str_items(t.drop_first()));
        assert(enc_str_items(t.drop_first()) == Seq::<u8>::empty());
        assert(enc_str_items(l) == Seq::<u8>::empty());
        assert(enc_str(x) + Seq::<u8>::empty() =~= Seq::<u8>::empty() + enc_str(x));
    } else {
        assert(t[0] == l[0]);
        assert(t.drop_first() =~= l.drop_first().push(x));
        lemma_enc_str_items_push(l.drop_first(), x);
        assert(enc_str_items(t) == enc_str(l[0]) + enc_str_items(t.drop_first()));
        assert(enc_str_items(t.drop_first()) == enc_str_items(l.drop_first()) + enc_str(x));
        assert(enc_str_items(l) == enc_str(l[0]) + enc_str_items(l.drop_first()));
        assert((enc_str(l[0]) + enc_str_items(l.drop_first())) + enc_str(x) =~= enc_str(l[0]) + (
        enc_str_items(l.drop_first()) + enc_str(x)));
    }
}

proof fn lemma_enc_vec_items_push(l: Seq<i16>, x: i16)
    ensures
        enc_vec_items(l.push(x)) == enc_vec_items(l) + i16_bytes(x),
    decreases l.len(),
{
    let t = l.push(x);
    if l.len() == 0 {
        assert(t.len() == 1);
        assert(t[0] == x);
        assert(t.drop_first() =~= Seq::<i16>::empty());
        assert(enc_vec_items(t) == i16_bytes(x) + enc_vec_items(t.drop_first()));
        assert(enc_vec_items(t.drop_first()) == Seq::<u8>::empty());
        assert(enc_vec_items(l) == Seq::<u8>::empty());
        assert(i16_bytes(x) + Seq::<u8>::empty() =~= Seq::<u8>::empty() + i16_bytes(x));
    } else {
        assert(t[0] == l[0]);
        assert(t.drop_first() =~= l.drop_first().push(x));
        lemma_enc_vec_items_push(l.drop_first(), x);
        assert(enc_vec_items(t) == i16_bytes(l[0]) + enc_vec_items(t.drop_first()));
        assert(enc_vec_items(t.drop_first()) == enc_vec_items(l.drop_first()) + i16_bytes(x));
        assert(enc_vec_items(l) == i16_bytes(l[0]) + enc_vec_items(l.drop_first()));
        assert((i16_bytes(l[0]) + enc_vec_items(l.drop_first())) + i16_bytes(x) =~= i16_bytes(l[0]) + (
        enc_vec_items(l.drop_first()) + i16_bytes(x)));
    }
}

proof fn lemma_enc_entry_items_push(l: Seq<DataEntryView>, x: DataEntryView)
    ensures
        enc_entry_items(l.push(x)) == enc_entry_items(l) + enc_entry(x),
    decreases l.len(),
{
    let t = l.push(x);
    if l.len() == 0 {
        assert(t.len() == 1);
        assert(t[0] == x);
        assert(t.drop_first() =~= Seq::<DataEntryView>::empty());
        assert(enc_entry_items(t) == enc_entry(x) + enc_entry_items(t.drop_first()));
        assert(enc_entry_items(t.drop_first()) == Seq::<u8>::empty());
        assert(enc_entry_items(l) == Seq::<u8>::empty());
        assert(enc_entry(x) + Seq::<u8>::empty() =~= Seq::<u8>::empty() + enc_entry(x));
    } else {
        assert(t[0] == l[0]);
        assert(t.drop_first() =~= l.drop_first().push(x));
        lemma_enc_entry_items_push(l.drop_first(), x);
        assert(enc_entry_items(t) == enc_entry(l[0]) + enc_entry_items(t.drop_first()));
        assert(enc_entry_items(t.drop_first()) == enc_entry_items(l.drop_first()) + enc_entry(x));
        assert(enc_entry_items(l) == enc_entry(l[0]) + enc_entry_items(l.drop_first()));
        assert((enc_entry(l[0]) + enc_entry_items(l.drop_first())) + enc_entry(x) =~= enc_entry(l[0]) + (
        enc_entry_items(l.drop_first()) + enc_entry(x)));
    }
}

fn push_vec(out: &mut Vec<u8>, v: &Vec<i16>)
    ensures
        final(out)@ == old(out)@ + enc_vec(v@),
{
    push_u64(out, v.len() as u64);
    let ghost mid = out@;
    for i in 0..v.len()
        invariant
            out@ == mid + enc_vec_items(v@.take(i as int)),
    {
        push_i16(out, v[i]);
        proof {
            lemma_enc_vec_items_push(v@.take(i as int), v@[i as int]);
            assert(v@.take(i as int).push(v@[i as int]) =~= v@.take(i + 1));
            assert(out@ =~= mid + enc_vec_items(v@.take(i + 1)));
        }
    }
    proof {
        assert(v@.take(v@.len() as int) =~= v@);
        assert(out@ =~= old(out)@ + enc_vec(v@));
    }
}

fn push_entry(out: &mut Vec<u8>, e: &DataEntry)
    ensures
        final(out)@ == old(out)@ + enc_entry(e@),
{
    push_u64(out, e.id as u64);
    push_str(out, &e.name);
    push_vec(out, &e.vector);
    push_str_list(out, &e.descriptions);
    proof {
        assert(out@ =~= old(out)@ + enc_entry(e@));
    }
}

fn push_store(out: &mut Vec<u8>, st: &InMemoryVectorStore)
    ensures
        final(out)@ == old(out)@ + enc_store(st@),
{
    push_u64(out, st.dimensions as u64);
    push_str_list(out, &st.prompt_annotations);
    push_str_list(out, &st.prompts);
    push_u64(out, st.prompt_size as u64);
    push_u64(out, st.next_id as u64);
    push_u64(out, st.data_entries.len() as u64);
    let ghost mid = out@;
    let n = st.data_entries.len();
    for i in 0..n
        invariant
            n == st.data_entries.len(),
            out@ == mid + enc_entry_items(st@.entries.take(i as int)),
    {
        push_entry(out, &st.data_entries[i]);
        proof {
            lemma_enc_entry_items_push(st@.entries.take(i as int), st@.entries[i as int]);
            assert(st@.entries.take(i as int).push(st@.entries[i as int]) =~= st@.entries.take(
                i + 1,
            ));
            assert(out@ =~= mid + enc_entry_items(st@.entries.take(i + 1)));
        }
    }
    proof {
        assert(st@.entries.take(st@.entries.len() as int) =~= st@.entries);
        assert(st@.entries.len() == st.data_entries@.len());
        assert(out@ =~= old(out)@ + enc_store(st@));
    }
}

/// Encode a whole coordinator snapshot: the two stores, in the fixed order.
pub fn encode_stores(clothes: &InMemoryVectorStore, face: &InMemoryVectorStore) -> (r: Vec<u8>)
    ensures
        r@ == enc_shared(clothes@, face@),
{
    let mut out: Vec<u8> = Vec::new();
    push_store(&mut out, clothes);
    push_store(&mut out, face);
    proof {
        assert(out@ =~= enc_shared(clothes@, face@));
    }
    out
}


/// Decode a 64-bit integer at `pos`.
pub open spec fn dec_u64(b: Seq<u8>, pos: int) -> Option<(u64, int)> {
    if 0 <= pos && pos + 8 <= b.len() {
        Some(
            (
                u64_of_bytes(
                    b[pos],
                    b[pos + 1],
                    b[pos + 2],
                    b[pos + 3],
                    b[pos + 4],
                    b[pos + 5],
                    b[pos + 6],
                    b[pos + 7],
                ),
                pos + 8,
            ),
        )
    } else {
        None
    }
}

/// Decode a vector component at `pos`.
pub open spec fn dec_i16(b: Seq<u8>, pos: int) -> Option<(i16, int)> {
    if 0 <= pos && pos + 2 <= b.len() {
        Some((i16_of_bytes(b[pos], b[pos + 1]), pos + 2))
    } else {
        None
    }
}

/// Decode a length-prefixed UTF-8 string at `pos`.
pub open spec fn dec_str(b: Seq<u8>, pos: int) -> Option<(Seq<char>, int)> {
    match dec_u64(b, pos) {
        Option::None => None,
        Option::Some((n, p)) => if p + n as int <= b.len() && valid_utf8(
            b.subrange(p, p + n as int),
        ) {
            Some((decode_utf8(b.subrange(p, p + n as int)), p + n as int))
        } else {
            None
        },
    }
}

/// Decode `count` strings at `pos`.
pub open spec fn dec_str_items(b: Seq<u8>, pos: int, count: nat) -> Option<(Seq<Seq<char>>, int)>
    decreases count,
{
    if count == 0 {
        Some((Seq::empty(), pos))
    } else {
        match dec_str(b, pos) {
            Option::None => None,
            Option::Some((s, p)) => match dec_str_items(b, p, (count - 1) as nat) {
                Option::None => None,
                Option::Some((l, p2)) => Some((seq![s] + l, p2)),
            },
        }
    }
}

/// Decode a count-prefixed string list at `pos`.
pub open spec fn dec_str_list(b: Seq<u8>, pos: int) -> Option<(Seq<Seq<char>>, int)> {
    match dec_u64(b, pos) {
        Option::None => None,
        Option::Some((n, p)) => dec_str_items(b, p, n as nat),
    }
}

/// Decode `count` vector components at `pos`.
pub open spec fn dec_vec_items(b: Seq<u8>, pos: int, count: nat) -> Option<(Seq<i16>, int)>
    decreases count,
{
    if count == 0 {
        Some((Seq::empty(), pos))
    } else {
        match dec_i16(b, pos) {
            Option::None => None,
            Option::Some((x, p)) => match dec_vec_items(b, p, (count - 1) as nat) {
                Option::None => None,
                Option::Some((v, p2)) => Some((seq![x] + v, p2)),
            },
        }
    }
}

/// Decode a count-prefixed vector at `pos`.
pub open spec fn dec_vec(b: Seq<u8>, pos: int) -> Option<(Seq<i16>, int)> {
    match dec_u64(b, pos) {
        Option::None => None,
        Option::Some((n, p)) => dec_vec_items(b, p, n as nat),
    }
}

/// Decode one record at `pos`.
pub open spec fn dec_entry(b: Seq<u8>, pos: int) -> Option<(DataEntryView, int)> {
    match dec_u64(b, pos) {
        Option::None => None,
        Option::Some((id, p1)) => if id <= usize::MAX as u64 {
            match dec_str(b, p1) {
                Option::None => None,
                Option::Some((name, p2)) => match dec_vec(b, p2) {
                    Option::None => None,
                    Option::Some((vector, p3)) => match dec_str_list(b, p3) {
                        Option::None => None,
                        Option::Some((descriptions, p4)) => Some(
                            (
                                DataEntryView {
                                    id: id as int,
                                    name,
                                    vector,
                                    descriptions,
                                },
                                p4,
                            ),
                        ),
                    },
                },
            }
        } else {
            None
        },
    }
}

/// Decode `count` records at `pos`.
pub open spec fn dec_entry_items(b: Seq<u8>, pos: int, count: nat) -> Option<
    (Seq<DataEntryView>, int),
>
    decreases count,
{
    if count == 0 {
        Some((Seq::empty(), pos))
    } else {
        match dec_entry(b, pos) {
            Option::None => None,
            Option::Some((e, p)) => match dec_entry_items(b, p, (count - 1) as nat) {
                Option::None => None,
                Option::Some((l, p2)) => Some((seq![e] + l, p2)),
            },
        }
    }
}

/// Decode one store at `pos`, validating its well-formedness.
pub open spec fn dec_store(b: Seq<u8>, pos: int) -> Option<(StoreView, int)> {
    match dec_u64(b, pos) {
        Option::None => None,
        Option::Some((dims, p1)) => match dec_str_list(b, p1) {
            Option::None => None,
            Option::Some((pa, p2)) => match dec_str_list(b, p2) {
                Option::None => None,
                Option::Some((pr, p3)) => match dec_u64(b, p3) {
                    Option::None => None,
                    Option::Some((psize, p4)) => match dec_u64(b, p4) {
                        Option::None => None,
                        Option::Some((nid, p5)) => match dec_u64(b, p5) {
                            Option::None => None,
                            Option::Some((cnt, p6)) => match dec_entry_items(b, p6, cnt as nat) {
                                Option::None => None,
                                Option::Some((es, p7)) => {
                                    let v = StoreView {
                                        entries: es,
                                        prompt_annotations: pa,
                                        prompts: pr,
                                        prompt_size: psize as int,
                                        dimensions: dims as int,
                                        next_id: nid as int,
                                    };
                                    if dims <= usize::MAX as u64 && psize <= usize::MAX as u64
                                        && nid <= usize::MAX as u64 && v.wf() {
                                        Some((v, p7))
                                    } else {
                                        None
                                    }
                                },
                            },
                        },
                    },
                },
            },
        },
    }
}

/// Decode a whole snapshot: both stores, consuming the document exactly.
pub open spec fn dec_shared(b: Seq<u8>) -> Option<(StoreView, StoreView)> {
    match dec_store(b, 0) {
        Option::None => None,
        Option::Some((c, p)) => match dec_store(b, p) {
            Option::None => None,
            Option::Some((f, p2)) => if p2 == b.len() {
                Some((c, f))
            } else {
                None
            },
        },
    }
}

/// The string's UTF-8 encoding is short enough for its length prefix.
pub open spec fn str_ok(s: Seq<char>) -> bool {
    encode_utf8(s).len() < 0x1_0000_0000_0000_0000
}

/// Every string fits, and the count fits its prefix.
pub open spec fn str_list_ok(l: Seq<Seq<char>>) -> bool {
    &&& l.len() < 0x1_0000_0000_0000_0000
    &&& forall|k: int| 0 <= k < l.len() ==> str_ok(#[trigger] l[k])
}

/// The record's fields fit their encodings.
pub open spec fn entry_ok(e: DataEntryView) -> bool {
    &&& 0 <= e.id <= usize::MAX as int
    &&& str_ok(e.name)
    &&& e.vector.len() < 0x1_0000_0000_0000_0000
    &&& str_list_ok(e.descriptions)
}

/// The store is well-formed and all of its parts fit their encodings; every
/// store actually held in memory satisfies this.
pub open spec fn store_ok(v: StoreView) -> bool {
    &&& v.wf()
    &&& 0 <= v.prompt_size <= usize::MAX as int
    &&& v.next_id <= usize::MAX as int
    &&& str_list_ok(v.prompt_annotations)
    &&& str_list_ok(v.prompts)
    &&& v.entries.len() < 0x1_0000_0000_0000_0000
    &&& forall|k: int| 0 <= k < v.entries.len() ==> entry_ok(#[trigger] v.entries[k])
}

proof fn lemma_split_at(b: Seq<u8>, pos: int, x: Seq<u8>, y: Seq<u8>)
    requires
        0 <= pos,
        pos + x.len() + y.len() <= b.len(),
        b.subrange(pos, pos + x.len() + y.len()) == x + y,
    ensures
        b.subrange(pos, pos + x.len() as int) == x,
        b.subrange(pos + x.len() as int, pos + x.len() + y.len()) == y,
{
    let xl = x.len() as int;
    let yl = y.len() as int;
    let whole = b.subrange(pos, pos + xl + yl);
    assert(whole == x + y);
    assert forall|k: int| 0 <= k < xl implies b[pos + k] == x[k] by {
        assert(whole[k] == b[pos + k]);
        assert((x + y)[k] == x[k]);
        assert(whole[k] == (x + y)[k]);
    }
    assert forall|k: int| 0 <= k < yl implies b[pos + xl + k] == y[k] by {
        assert(whole[xl + k] == b[pos + xl + k]);
        assert((x + y)[xl + k] == y[k]);
        assert(whole[xl + k] == (x + y)[xl + k]);
    }
    assert(b.subrange(pos, pos + x.len() as int) =~= x);
    assert(b.subrange(pos + x.len() as int, pos + x.len() + y.len()) =~= y);
}

proof fn lemma_dec_u64_round(b: Seq<u8>, pos: int, v: u64)
    requires
        0 <= pos,
        pos + 8 <= b.len(),
        b.subrange(pos, pos + 8) == u64_bytes(v),
    ensures
        dec_u64(b, pos) == Some((v, pos + 8)),
{
    assert(b[pos] == u64_bytes(v)[0]);
    assert(b[pos + 1] == u64_bytes(v)[1]);
    assert(b[pos + 2] == u64_bytes(v)[2]);
    assert(b[pos + 3] == u64_bytes(v)[3]);
    assert(b[pos + 4] == u64_bytes(v)[4]);
    assert(b[pos + 5] == u64_bytes(v)[5]);
    assert(b[pos + 6] == u64_bytes(v)[6]);
    assert(b[pos + 7] == u64_bytes(v)[7]);
    lemma_u64_bytes_round_trip(v);
}

proof fn lemma_dec_i16_round(b: Seq<u8>, pos: int, x: i16)
    requires
        0 <= pos,
        pos + 2 <= b.len(),
        b.subrange(pos, pos + 2) == i16_bytes(x),
    ensures
        dec_i16(b, pos) == Some((x, pos + 2)),
{
    assert(b[pos] == i16_bytes(x)[0]);
    assert(b[pos + 1] == i16_bytes(x)[1]);
    lemma_i16_bytes_round_trip(x);
}

proof fn lemma_dec_str_round(b: Seq<u8>, pos: int, s: Seq<char>)
    requires
        0 <= pos,
        str_ok(s),
        pos + enc_str(s).len() <= b.len(),
        b.subrange(pos, pos + enc_str(s).len() as int) == enc_str(s),
    ensures
        dec_str(b, pos) == Some((s, pos + enc_str(s).len())),
{
    broadcast use vstd::utf8::encode_utf8_valid_utf8;
    broadcast use vstd::utf8::encode_utf8_decode_utf8;

    let bytes = encode_utf8(s);
    let n = bytes.len() as u64;
    lemma_split_at(b, pos, u64_bytes(n), bytes);
    lemma_dec_u64_round(b, pos, n);
    assert(b.subrange(pos + 8, pos + 8 + n as int) == bytes);
    assert(decode_utf8(bytes) == s);
}

#[verifier::rlimit(100)]
#[verifier::spinoff_prover]
proof fn lemma_dec_str_items_round(b: Seq<u8>, pos: int, l: Seq<Seq<char>>)
    requires
        0 <= pos,
        forall|k: int| 0 <= k < l.len() ==> str_ok(#[trigger] l[k]),
        pos + enc_str_items(l).len() <= b.len(),
        b.subrange(pos, pos + enc_str_items(l).len() as int) == enc_str_items(l),
    ensures
        dec_str_items(b, pos, l.len()) == Some((l, pos + enc_str_items(l).len())),
    decreases l.len(),
{
    if l.len() == 0 {
        assert(l =~= Seq::<Seq<char>>::empty());
    } else {
        let first = enc_str(l[0]);
        let rest = enc_str_items(l.drop_first());
        assert(enc_str_items(l) == first + rest);
        lemma_split_at(b, pos, first, rest);
        lemma_dec_str_round(b, pos, l[0]);
        assert(forall|k: int|
            0 <= k < l.drop_first().len() ==> str_ok(#[trigger] l.drop_first()[k]));
        lemma_dec_str_items_round(b, pos + first.len(), l.drop_first());
        assert(seq![l[0]] + l.drop_first() =~= l);
    }
}

proof fn lemma_dec_str_list_round(b: Seq<u8>, pos: int, l: Seq<Seq<char>>)
    requires
        0 <= pos,
        str_list_ok(l),
        pos + enc_str_list(l).len() <= b.len(),
        b.subrange(pos, pos + enc_str_list(l).len() as int) == enc_str_list(l),
    ensures
        dec_str_list(b, pos) == Some((l, pos + enc_str_list(l).len())),
{
    let n = l.len() as u64;
    lemma_split_at(b, pos, u64_bytes(n), enc_str_items(l));
    lemma_dec_u64_round(b, pos, n);
    lemma_dec_str_items_round(b, pos + 8, l);
}

proof fn lemma_dec_vec_items_round(b: Seq<u8>, pos: int, v: Seq<i16>)
    requires
        0 <= pos,
        pos + enc_vec_items(v).len() <= b.len(),
        b.subrange(pos, pos + enc_vec_items(v).len() as int) == enc_vec_items(v),
    ensures
        dec_vec_items(b, pos, v.len()) == Some((v, pos + enc_vec_items(v).len())),
    decreases v.len(),
{
    if v.len() == 0 {
        assert(v =~= Seq::<i16>::empty());
    } else {
        let first = i16_bytes(v[0]);
        let rest = enc_vec_items(v.drop_first());
        assert(enc_vec_items(v) == first + rest);
        lemma_split_at(b, pos, first, rest);
        lemma_dec_i16_round(b, pos, v[0]);
        lemma_dec_vec_items_round(b, pos + 2, v.drop_first());
        assert(seq![v[0]] + v.drop_first() =~= v);
    }
}

proof fn lemma_dec_vec_round(b: Seq<u8>, pos: int, v: Seq<i16>)
    requires
        0 <= pos,
        v.len() < 0x1_0000_0000_0000_0000,
        pos + enc_vec(v).len() <= b.len(),
        b.subrange(pos, pos + enc_vec(v).len() as int) == enc_vec(v),
    ensures
        dec_vec(b, pos) == Some((v, pos + enc_vec(v).len())),
{
    let n = v.len() as u64;
    lemma_split_at(b, pos, u64_bytes(n), enc_vec_items(v));
    lemma_dec_u64_round(b, pos, n);
    lemma_dec_vec_items_round(b, pos + 8, v);
}

#[verifier::rlimit(100)]
#[verifier::spinoff_prover]
proof fn lemma_dec_entry_round(b: Seq<u8>, pos: int, e: DataEntryView)
    requires
        0 <= pos,
        entry_ok(e),
        pos + enc_entry(e).len() <= b.len(),
        b.subrange(pos, pos + enc_entry(e).len() as int) == enc_entry(e),
    ensures
        dec_entry(b, pos) == Some((e, pos + enc_entry(e).len())),
{
    let id_part = u64_bytes(e.id as u64);
    let name_part = enc_str(e.name);
    let vec_part = enc_vec(e.vector);
    let desc_part = enc_str_list(e.descriptions);
    assert(enc_entry(e) == id_part + name_part + vec_part + desc_part);
    assert((id_part + name_part + vec_part + desc_part) =~= (id_part + (name_part + (vec_part
        + desc_part))));
    lemma_split_at(b, pos, id_part, name_part + (vec_part + desc_part));
    lemma_dec_u64_round(b, pos, e.id as u64);
    let p1 = pos + 8;
    lemma_split_at(b, p1, name_part, vec_part + desc_part);
    lemma_dec_str_round(b, p1, e.name);
    let p2 = p1 + name_part.len();
    lemma_split_at(b, p2, vec_part, desc_part);
    lemma_dec_vec_round(b, p2, e.vector);
    let p3 = p2 + vec_part.len();
    lemma_dec_str_list_round(b, p3, e.descriptions);
}

#[verifier::rlimit(100)]
#[verifier::spinoff_prover]
proof fn lemma_dec_entry_items_round(b: Seq<u8>, pos: int, l: Seq<DataEntryView>)
    requires
        0 <= pos,
        forall|k: int| 0 <= k < l.len() ==> entry_ok(#[trigger] l[k]),
        pos + enc_entry_items(l).len() <= b.len(),
        b.subrange(pos, pos + enc_entry_items(l).len() as int) == enc_entry_items(l),
    ensures
        dec_entry_items(b, pos, l.len()) == Some((l, pos + enc_entry_items(l).len())),
    decreases l.len(),
{
    if l.len() == 0 {
        assert(l =~= Seq::<DataEntryView>::empty());
    } else {
        let first = enc_entry(l[0]);
        let rest = enc_entry_items(l.drop_first());
        assert(enc_entry_items(l) == first + rest);
        lemma_split_at(b, pos, first, rest);
        lemma_dec_entry_round(b, pos, l[0]);
        assert(forall|k: int|
            0 <= k < l.drop_first().len() ==> entry_ok(#[trigger] l.drop_first()[k]));
        lemma_dec_entry_items_round(b, pos + first.len(), l.drop_first());
        assert(seq![l[0]] + l.drop_first() =~= l);
    }
}

#[verifier::rlimit(100)]
#[verifier::spinoff_prover]
proof fn lemma_dec_store_round(b: Seq<u8>, pos: int, v: StoreView)
    requires
        0 <= pos,
        store_ok(v),
        pos + enc_store(v).len() <= b.len(),
        b.subrange(pos, pos + enc_store(v).len() as int) == enc_store(v),
    ensures
        dec_store(b, pos) == Some((v, pos + enc_store(v).len())),
{
    let dims_part = u64_bytes(v.dimensions as u64);
    let pa_part = enc_str_list(v.prompt_annotations);
    let pr_part = enc_str_list(v.prompts);
    let psize_part = u64_bytes(v.prompt_size as u64);
    let nid_part = u64_bytes(v.next_id as u64);
    let cnt_part = u64_bytes(v.entries.len() as u64);
    let items_part = enc_entry_items(v.entries);
    assert(enc_store(v) == dims_part + pa_part + pr_part + psize_part + nid_part + cnt_part
        + items_part);
    assert((dims_part + pa_part + pr_part + psize_part + nid_part + cnt_part + items_part) =~= (
    dims_part + (pa_part + (pr_part + (psize_part + (nid_part + (cnt_part + items_part)))))));
    lemma_split_at(b, pos, dims_part, pa_part + (pr_part + (psize_part + (nid_part + (cnt_part
        + items_part)))));
    lemma_dec_u64_round(b, pos, v.dimensions as u64);
    let p1 = pos + 8;
    lemma_split_at(b, p1, pa_part, pr_part + (psize_part + (nid_part + (cnt_part + items_part))));
    lemma_dec_str_list_round(b, p1, v.prompt_annotations);
    let p2 = p1 + pa_part.len();
    lemma_split_at(b, p2, pr_part, psize_part + (nid_part + (cnt_part + items_part)));
    lemma_dec_str_list_round(b, p2, v.prompts);
    let p3 = p2 + pr_part.len();
    lemma_split_at(b, p3, psize_part, nid_part + (cnt_part + items_part));
    lemma_dec_u64_round(b, p3, v.prompt_size as u64);
    let p4 = p3 + 8;
    lemma_split_at(b, p4, nid_part, cnt_part + items_part);
    lemma_dec_u64_round(b, p4, v.next_id as u64);
    let p5 = p4 + 8;
    lemma_split_at(b, p5, cnt_part, items_part);
    lemma_dec_u64_round(b, p5, v.entries.len() as u64);
    let p6 = p5 + 8;
    assert(forall|k: int| 0 <= k < v.entries.len() ==> entry_ok(#[trigger] v.entries[k]));
    lemma_dec_entry_items_round(b, p6, v.entries);
}

/// Decoding a snapshot of two well-formed stores yields exactly those stores:
/// `load` after `save` reproduces every record and every configuration value.
pub proof fn lemma_snapshot_round_trip(clothes: StoreView, face: StoreView)
    requires
        store_ok(clothes),
        store_ok(face),
    ensures
        dec_shared(enc_shared(clothes, face)) == Some((clothes, face)),
{
    let b = enc_shared(clothes, face);
    let c_part = enc_store(clothes);
    let f_part = enc_store(face);
    assert(b.subrange(0, c_part.len() + f_part.len() as int) =~= c_part + f_part);
    lemma_split_at(b, 0, c_part, f_part);
    lemma_dec_store_round(b, 0, clothes);
    lemma_dec_store_round(b, c_part.len() as int, face);
}

proof fn lemma_dec_str_items_len(b: Seq<u8>, pos: int, count: nat)
    ensures
        dec_str_items(b, pos, count) matches Some(lp) ==> lp.0.len() == count,
    decreases count,
{
    if count > 0 {
        match dec_str(b, pos) {
            Option::Some((s, p)) => {
                lemma_dec_str_items_len(b, p, (count - 1) as nat);
            },
            Option::None => {},
        }
    }
}

proof fn lemma_dec_vec_items_len(b: Seq<u8>, pos: int, count: nat)
    ensures
        dec_vec_items(b, pos, count) matches Some(lp) ==> lp.0.len() == count,
    decreases count,
{
    if count > 0 {
        match dec_i16(b, pos) {
            Option::Some((x, p)) => {
                lemma_dec_vec_items_len(b, p, (count - 1) as nat);
            },
            Option::None => {},
        }
    }
}

proof fn lemma_dec_entry_items_len(b: Seq<u8>, pos: int, count: nat)
    ensures
        dec_entry_items(b, pos, count) matches Some(lp) ==> lp.0.len() == count,
    decreases count,
{
    if count > 0 {
        match dec_entry(b, pos) {
            Option::Some((e, p)) => {
                lemma_dec_entry_items_len(b, p, (count - 1) as nat);
            },
            Option::None => {},
        }
    }
}

/// Relies on `String::from_utf8`: succeeds exactly on valid UTF-8 input and
/// returns the string whose character sequence is the decoding of the bytes,
/// in the model of `vstd::utf8` (`str::as_bytes` of the result gives the
/// input bytes back).
#[verifier::external_body]
fn bytes_to_string(v: Vec<u8>) -> (r: Option<String>)
    ensures
        r matches Some(s) ==> valid_utf8(v@) && s@ == decode_utf8(v@),
        r is None ==> !valid_utf8(v@),
{
    match String::from_utf8(v) {
        Ok(s) => Some(s),
        Err(_) => None,
    }
}

fn read_u64(b: &Vec<u8>, pos: usize) -> (r: Option<(u64, usize)>)
    requires
        pos <= b@.len(),
    ensures
        dec_u64(b@, pos as int) matches Some(vp) ==> (r matches Some(x) && x.0 == vp.0 && x.1
            as int == vp.1 && pos < x.1 <= b@.len()),
        dec_u64(b@, pos as int) is None ==> r is None,
{
    if b.len() - pos < 8 {
        return None;
    }
    let v = (b[pos] as u64) | ((b[pos + 1] as u64) << 8) | ((b[pos + 2] as u64) << 16) | ((b[pos
        + 3] as u64) << 24) | ((b[pos + 4] as u64) << 32) | ((b[pos + 5] as u64) << 40) | ((b[pos
        + 6] as u64) << 48) | ((b[pos + 7] as u64) << 56);
    Some((v, pos + 8))
}

fn read_i16(b: &Vec<u8>, pos: usize) -> (r: Option<(i16, usize)>)
    requires
        pos <= b@.len(),
    ensures
        dec_i16(b@, pos as int) matches Some(vp) ==> (r matches Some(x) && x.0 == vp.0 && x.1
            as int == vp.1 && pos < x.1 <= b@.len()),
        dec_i16(b@, pos as int) is None ==> r is None,
{
    if b.len() - pos < 2 {
        return None;
    }
    let u: u16 = (b[pos] as u16) | ((b[pos + 1] as u16) << 8);
    Some((u as i16, pos + 2))
}

fn parse_str(b: &Vec<u8>, pos: usize) -> (r: Option<(String, usize)>)
    requires
        pos <= b@.len(),
    ensures
        dec_str(b@, pos as int) matches Some(sp) ==> (r matches Some(x) && x.0@ == sp.0 && x.1
            as int == sp.1 && pos < x.1 <= b@.len()),
        dec_str(b@, pos as int) is None ==> r is None,
{
    match read_u64(b, pos) {
        Option::None => None,
        Option::Some((n, p)) => {
            if n > (b.len() - p) as u64 {
                return None;
            }
            let nn: usize = n as usize;
            let mut bytes: Vec<u8> = Vec::new();
            for i in 0..nn
                invariant
                    p + nn <= b@.len(),
                    b@.len() <= usize::MAX,
                    bytes@ == b@.subrange(p as int, p + i as int),
            {
                bytes.push(b[p + i]);
                proof {
                    assert(bytes@ =~= b@.subrange(p as int, p + i + 1));
                }
            }
            proof {
                assert(bytes@ == b@.subrange(p as int, p + n as int));
            }
            match bytes_to_string(bytes) {
                Option::None => None,
                Option::Some(s) => Some((s, p + nn)),
            }
        },
    }
}

fn parse_str_list(b: &Vec<u8>, pos: usize) -> (r: Option<(Vec<String>, usize)>)
    requires
        pos <= b@.len(),
    ensures
        dec_str_list(b@, pos as int) matches Some(lp) ==> (r matches Some(x) && x.0.deep_view()
            == lp.0 && x.1 as int == lp.1 && pos < x.1 <= b@.len()),
        dec_str_list(b@, pos as int) is None ==> r is None,
{
    match read_u64(b, pos) {
        Option::None => None,
        Option::Some((n, p0)) => {
            let mut acc: Vec<String> = Vec::new();
            let mut cur: usize = p0;
            let mut i: u64 = 0;
            while i < n
                invariant
                    pos < p0 <= b@.len(),
                    0 <= i <= n,
                    p0 <= cur <= b@.len(),
                    dec_u64(b@, pos as int) == Some((n, p0 as int)),
                    acc.deep_view().len() == i as int,
                    match dec_str_items(b@, p0 as int, n as nat) {
                        Option::Some(lp) => dec_str_items(b@, cur as int, (n - i) as nat) == Some(
                            (lp.0.skip(i as int), lp.1),
                        ) && acc.deep_view() == lp.0.take(i as int),
                        Option::None => dec_str_items(b@, cur as int, (n - i) as nat) is None,
                    },
                decreases n - i,
            {
                let ghost total = dec_str_items(b@, p0 as int, n as nat);
                proof {
                    lemma_dec_str_items_len(b@, p0 as int, n as nat);
                }
                match parse_str(b, cur) {
                    Option::None => {
                        proof {
                            assert(dec_str_items(b@, cur as int, (n - i) as nat) is None);
                        }
                        return None;
                    },
                    Option::Some((s, p2)) => {
                        proof {
                            match total {
                                Option::Some(lp) => {
                                    assert(lp.0.skip(i as int)[0] == lp.0[i as int]);
                                    assert(lp.0.skip(i as int).drop_first() =~= lp.0.skip(i + 1));
                                    assert(lp.0.take(i as int).push(lp.0[i as int]) =~= lp.0.take(
                                        i + 1,
                                    ));
                                },
                                Option::None => {},
                            }
                        }
                        let ghost before = acc.deep_view();
                        acc.push(s);
                        proof {
                            assert(acc.deep_view() =~= before.push(s@));
                        }
                        cur = p2;
                        i = i + 1;
                    },
                }
            }
            proof {
                lemma_dec_str_items_len(b@, p0 as int, n as nat);
                match dec_str_items(b@, p0 as int, n as nat) {
                    Option::Some(lp) => {
                        assert(lp.0.skip(n as int) =~= Seq::<Seq<char>>::empty());
                        assert(lp.0.take(n as int) =~= lp.0);
                    },
                    Option::None => {},
                }
            }
            Some((acc, cur))
        },
    }
}

fn parse_vec(b: &Vec<u8>, pos: usize) -> (r: Option<(Vec<i16>, usize)>)
    requires
        pos <= b@.len(),
    ensures
        dec_vec(b@, pos as int) matches Some(lp) ==> (r matches Some(x) && x.0@ == lp.0 && x.1
            as int == lp.1 && pos < x.1 <= b@.len()),
        dec_vec(b@, pos as int) is None ==> r is None,
{
    match read_u64(b, pos) {
        Option::None => None,
        Option::Some((n, p0)) => {
            let mut acc: Vec<i16> = Vec::new();
            let mut cur: usize = p0;
            let mut i: u64 = 0;
            while i < n
                invariant
                    pos < p0 <= b@.len(),
                    0 <= i <= n,
                    p0 <= cur <= b@.len(),
                    dec_u64(b@, pos as int) == Some((n, p0 as int)),
                    acc@.len() == i as int,
                    match dec_vec_items(b@, p0 as int, n as nat) {
                        Option::Some(lp) => dec_vec_items(b@, cur as int, (n - i) as nat) == Some(
                            (lp.0.skip(i as int), lp.1),
                        ) && acc@ == lp.0.take(i as int),
                        Option::None => dec_vec_items(b@, cur as int, (n - i) as nat) is None,
                    },
                decreases n - i,
            {
                let ghost total = dec_vec_items(b@, p0 as int, n as nat);
                proof {
                    lemma_dec_vec_items_len(b@, p0 as int, n as nat);
                }
                match read_i16(b, cur) {
                    Option::None => {
                        proof {
                            assert(dec_vec_items(b@, cur as int, (n - i) as nat) is None);
                        }
                        return None;
                    },
                    Option::Some((x, p2)) => {
                        proof {
                            match total {
                                Option::Some(lp) => {
                                    assert(lp.0.skip(i as int)[0] == lp.0[i as int]);
                                    assert(lp.0.skip(i as int).drop_first() =~= lp.0.skip(i + 1));
                                    assert(lp.0.take(i as int).push(lp.0[i as int]) =~= lp.0.take(
                                        i + 1,
                                    ));
                                },
                                Option::None => {},
                            }
                        }
                        acc.push(x);
                        cur = p2;
                        i = i + 1;
                    },
                }
            }
            proof {
                lemma_dec_vec_items_len(b@, p0 as int, n as nat);
                match dec_vec_items(b@, p0 as int, n as nat) {
                    Option::Some(lp) => {
                        assert(lp.0.skip(n as int) =~= Seq::<i16>::empty());
                        assert(lp.0.take(n as int) =~= lp.0);
                    },
                    Option::None => {},
                }
            }
            Some((acc, cur))
        },
    }
}

fn parse_entry(b: &Vec<u8>, pos: usize) -> (r: Option<(DataEntry, usize)>)
    requires
        pos <= b@.len(),
    ensures
        dec_entry(b@, pos as int) matches Some(ep) ==> (r matches Some(x) && x.0@ == ep.0 && x.1
            as int == ep.1 && pos < x.1 <= b@.len()),
        dec_entry(b@, pos as int) is None ==> r is None,
{
    match read_u64(b, pos) {
        Option::None => None,
        Option::Some((id64, p1)) => {
            if id64 > usize::MAX as u64 {
                return None;
            }
            let id: usize = id64 as usize;
            match parse_str(b, p1) {
                Option::None => None,
                Option::Some((name, p2)) => match parse_vec(b, p2) {
                    Option::None => None,
                    Option::Some((vector, p3)) => match parse_str_list(b, p3) {
                        Option::None => None,
                        Option::Some((descriptions, p4)) => {
                            let e = DataEntry { id, name, vector, descriptions };
                            Some((e, p4))
                        },
                    },
                },
            }
        },
    }
}

fn parse_entries(b: &Vec<u8>, pos: usize, count: u64) -> (r: Option<(Vec<DataEntry>, usize)>)
    requires
        pos <= b@.len(),
    ensures
        dec_entry_items(b@, pos as int, count as nat) matches Some(lp) ==> (r matches Some(x)
            && views_of(x.0@) == lp.0 && x.1 as int == lp.1 && pos <= x.1 <= b@.len()),
        dec_entry_items(b@, pos as int, count as nat) is None ==> r is None,
{
    let mut acc: Vec<DataEntry> = Vec::new();
    let mut cur: usize = pos;
    let mut i: u64 = 0;
    while i < count
        invariant
            0 <= i <= count,
            pos <= cur <= b@.len(),
            views_of(acc@).len() == i as int,
            match dec_entry_items(b@, pos as int, count as nat) {
                Option::Some(lp) => dec_entry_items(b@, cur as int, (count - i) as nat) == Some(
                    (lp.0.skip(i as int), lp.1),
                ) && views_of(acc@) == lp.0.take(i as int),
                Option::None => dec_entry_items(b@, cur as int, (count - i) as nat) is None,
            },
        decreases count - i,
    {
        let ghost total = dec_entry_items(b@, pos as int, count as nat);
        proof {
            lemma_dec_entry_items_len(b@, pos as int, count as nat);
        }
        match parse_entry(b, cur) {
            Option::None => {
                proof {
                    assert(dec_entry_items(b@, cur as int, (count - i) as nat) is None);
                }
                return None;
            },
            Option::Some((e, p2)) => {
                proof {
                    match total {
                        Option::Some(lp) => {
                            assert(lp.0.skip(i as int)[0] == lp.0[i as int]);
                            assert(lp.0.skip(i as int).drop_first() =~= lp.0.skip(i + 1));
                            assert(lp.0.take(i as int).push(lp.0[i as int]) =~= lp.0.take(i + 1));
                        },
                        Option::None => {},
                    }
                }
                let ghost before = acc@;
                acc.push(e);
                proof {
                    assert(views_of(acc@) =~= views_of(before).push(e@));
                }
                cur = p2;
                i = i + 1;
            },
        }
    }
    proof {
        lemma_dec_entry_items_len(b@, pos as int, count as nat);
        match dec_entry_items(b@, pos as int, count as nat) {
            Option::Some(lp) => {
                assert(lp.0.skip(count as int) =~= Seq::<DataEntryView>::empty());
                assert(lp.0.take(count as int) =~= lp.0);
            },
            Option::None => {},
        }
    }
    Some((acc, cur))
}

fn entries_valid(entries: &Vec<DataEntry>, dims: usize, next_id: usize) -> (r: bool)
    ensures
        r == (forall|i: int|
            0 <= i < views_of(entries@).len() ==> ((#[trigger] views_of(entries@)[i]).vector.len()
                == dims as int && 1 <= views_of(entries@)[i].id < next_id as int)),
{
    let n = entries.len();
    for i in 0..n
        invariant
            n == entries@.len(),
            forall|k: int|
                0 <= k < i ==> ((#[trigger] views_of(entries@)[k]).vector.len() == dims as int && 1
                    <= views_of(entries@)[k].id < next_id as int),
    {
        let ok = entries[i].vector.len() == dims && entries[i].id >= 1 && entries[i].id < next_id;
        if !ok {
            proof {
                assert(!((views_of(entries@)[i as int]).vector.len() == dims as int && 1
                    <= views_of(entries@)[i as int].id < next_id as int));
            }
            return false;
        }
    }
    true
}

fn ids_unique(entries: &Vec<DataEntry>) -> (r: bool)
    ensures
        r == unique_ids(views_of(entries@)),
{
    let n = entries.len();
    for i in 0..n
        invariant
            n == entries@.len(),
            forall|a: int, c: int|
                0 <= a < c < i ==> (#[trigger] views_of(entries@)[a]).id != (#[trigger] views_of(
                    entries@,
                )[c]).id,
    {
        for j in 0..i
            invariant
                i < n,
                n == entries@.len(),
                forall|a: int, c: int|
                    0 <= a < c < i ==> (#[trigger] views_of(entries@)[a]).id != (
                    #[trigger] views_of(entries@)[c]).id,
                forall|a: int|
                    0 <= a < j ==> (#[trigger] views_of(entries@)[a]).id != views_of(
                        entries@,
                    )[i as int].id,
        {
            if entries[j].id == entries[i].id {
                proof {
                    assert(views_of(entries@)[j as int].id == views_of(entries@)[i as int].id);
                    assert(!unique_ids(views_of(entries@)));
                }
                return false;
            }
        }
    }
    true
}

/// Parse one store at `pos`, validating its well-formedness exactly as the
/// specification decoder does.
fn parse_store(b: &Vec<u8>, pos: usize) -> (r: Option<(InMemoryVectorStore, usize)>)
    requires
        pos <= b@.len(),
    ensures
        dec_store(b@, pos as int) matches Some(vp) ==> (r matches Some(x) && x.0@ == vp.0
            && x.0.wf() && x.1 as int == vp.1 && pos < x.1 <= b@.len()),
        dec_store(b@, pos as int) is None ==> r is None,
{
    match read_u64(b, pos) {
        Option::None => None,
        Option::Some((dims64, p1)) => match parse_str_list(b, p1) {
            Option::None => None,
            Option::Some((pa, p2)) => match parse_str_list(b, p2) {
                Option::None => None,
                Option::Some((pr, p3)) => match read_u64(b, p3) {
                    Option::None => None,
                    Option::Some((ps64, p4)) => match read_u64(b, p4) {
                        Option::None => None,
                        Option::Some((nid64, p5)) => match read_u64(b, p5) {
                            Option::None => None,
                            Option::Some((cnt, p6)) => match parse_entries(b, p6, cnt) {
                                Option::None => None,
                                Option::Some((entries, p7)) => {
                                    if dims64 > usize::MAX as u64 || ps64 > usize::MAX as u64
                                        || nid64 > usize::MAX as u64 {
                                        return None;
                                    }
                                    let dims: usize = dims64 as usize;
                                    let psize: usize = ps64 as usize;
                                    let nid: usize = nid64 as usize;
                                    if dims > MAX_DIMENSIONS || nid == 0 {
                                        return None;
                                    }
                                    if !entries_valid(&entries, dims, nid) {
                                        return None;
                                    }
                                    if !ids_unique(&entries) {
                                        return None;
                                    }
                                    let st = InMemoryVectorStore {
                                        data_entries: entries,
                                        prompt_annotations: pa,
                                        prompts: pr,
                                        prompt_size: psize,
                                        dimensions: dims,
                                        next_id: nid,
                                    };
                                    Some((st, p7))
                                },
                            },
                        },
                    },
                },
            },
        },
    }
}

/// Decode a whole coordinator snapshot, requiring the document to be consumed
/// exactly; returns the two stores in the fixed order.
pub fn decode_stores(b: &Vec<u8>) -> (r: Option<(InMemoryVectorStore, InMemoryVectorStore)>)
    ensures
        dec_shared(b@) matches Some(vp) ==> (r matches Some(x) && x.0@ == vp.0 && x.1@ == vp.1
            && x.0.wf() && x.1.wf()),
        dec_shared(b@) is None ==> r is None,
{
    match parse_store(b, 0) {
        Option::None => None,
        Option::Some((clothes, p)) => match parse_store(b, p) {
            Option::None => None,
            Option::Some((face, p2)) => {
                if p2 == b.len() {
                    Some((clothes, face))
                } else {
                    None
                }
            },
        },
    }
}
} // verus!
