//! The archive writer: each source file's bytes are compressed into a data
//! block, the header's offsets and lengths are finalized from the blocks'
//! sizes, and the archive is rendered as the header records followed by the
//! blocks, with every recorded offset matching where its block lands.

use vstd::prelude::*;
use vstd::bytes::*;
use crate::header::{
    Header, HeaderItem, ItemView, items_views, spec_item_len, spec_path_bytes, spec_record_bytes,
};

verus! {

/// The compressed stream the encoder produces for given input bytes.
pub uninterp spec fn zlib_of(data: Seq<u8>) -> Seq<u8>;

/// Relies on libflate's zlib encoder with its default options: fed whole
/// input, finalized once, its output is a function of the input bytes alone.
/// The call always succeeds: the encoder's only failure paths forward its
/// sink's write errors, and the sink here is a byte vector, whose writes
/// never fail — the error branches below are dead.
#[verifier::external_body]
fn zlib_compress(data: &Vec<u8>) -> (r: Result<Vec<u8>, ()>)
    ensures
        r is Ok,
        r matches Ok(v) ==> v@ == zlib_of(data@),
{
    let mut encoder = match libflate::zlib::Encoder::new(Vec::new()) {
        Ok(e) => e,
        Err(_) => return Err(()),
    };
    if std::io::Write::write_all(&mut encoder, data.as_slice()).is_err() {
        return Err(());
    }
    match encoder.finish().into_result() {
        Ok(v) => Ok(v),
        Err(_) => Err(()),
    }
}

/// Byte length of the first `n` items' header records.
pub open spec fn spec_header_len(items: Seq<ItemView>, n: int) -> int
    decreases n,
{
    if n <= 0 {
        0
    } else {
        spec_header_len(items, n - 1) + spec_item_len(items[n - 1])
    }
}

/// The first `n` items' header records, concatenated without padding.
pub open spec fn spec_records_bytes(items: Seq<ItemView>, n: int) -> Seq<u8>
    decreases n,
{
    if n <= 0 {
        Seq::empty()
    } else {
        spec_records_bytes(items, n - 1) + spec_record_bytes(items[n - 1])
    }
}

/// Total byte length of the first `k` data blocks.
pub open spec fn spec_prefix_len(blocks: Seq<Seq<u8>>, k: int) -> int
    decreases k,
{
    if k <= 0 {
        0
    } else {
        spec_prefix_len(blocks, k - 1) + blocks[k - 1].len()
    }
}

/// The first `k` data blocks, concatenated.
pub open spec fn spec_concat_n(blocks: Seq<Seq<u8>>, k: int) -> Seq<u8>
    decreases k,
{
    if k <= 0 {
        Seq::empty()
    } else {
        spec_concat_n(blocks, k - 1) + blocks[k - 1]
    }
}

pub open spec fn blocks_views(blocks: Seq<Vec<u8>>) -> Seq<Seq<u8>> {
    blocks.map_values(|b: Vec<u8>| b@)
}

/// An item whose record can be serialized: name resolved, and both string
/// fields within their two-byte lengths.
pub open spec fn writable_item(v: ItemView) -> bool {
    &&& v.name is Some
    &&& vstd::utf8::encode_utf8(v.name->Some_0).len() <= 0xffff
    &&& spec_path_bytes(v).len() <= 0xffff
}

pub open spec fn spec_items_writable(items: Seq<ItemView>) -> bool {
    forall|i: int| 0 <= i < items.len() ==> writable_item(#[trigger] items[i])
}

/// The whole archive fits the platform's byte-vector limit.
pub open spec fn spec_fits(items: Seq<ItemView>, bv: Seq<Seq<u8>>) -> bool {
    spec_header_len(items, items.len() as int) + spec_prefix_len(bv, bv.len() as int)
        <= usize::MAX
}

/// The items with their placement finalized: each record's position in the
/// header, and each data block's offset — the full header length plus the
/// lengths of the blocks before it — and length.
pub open spec fn spec_final_views(items0: Seq<ItemView>, bv: Seq<Seq<u8>>) -> Seq<ItemView> {
    let hlen = spec_header_len(items0, items0.len() as int);
    Seq::new(
        items0.len(),
        |i: int|
            ItemView {
                header_offset: Option::Some(spec_header_len(items0, i)),
                data_offset: Option::Some((hlen + spec_prefix_len(bv, i)) as u64),
                data_length: Option::Some(bv[i].len() as u64),
                ..items0[i]
            },
    )
}

/// The one invariant the writer owes: the rendered archive is the records
/// followed by the blocks, and every finalized offset and length points at
/// exactly its block's bytes.
pub open spec fn archive_rendered(
    items0: Seq<ItemView>,
    items1: Seq<ItemView>,
    bv: Seq<Seq<u8>>,
    bytes: Seq<u8>,
) -> bool {
    let n = items0.len() as int;
    let hlen = spec_header_len(items0, n);
    &&& bv.len() == items0.len()
    &&& items1 == spec_final_views(items0, bv)
    &&& bytes == spec_records_bytes(items1, n) + spec_concat_n(bv, n)
    &&& bytes.len() == hlen + spec_prefix_len(bv, n)
    &&& forall|i: int|
        0 <= i < n ==> bytes.subrange(
            hlen + spec_prefix_len(bv, i),
            hlen + spec_prefix_len(bv, i) + bv[i].len() as int,
        ) == bv[i]
}

proof fn lemma_header_len_nonneg(items: Seq<ItemView>, i: int)
    ensures
        spec_header_len(items, i) >= 0,
    decreases i,
{
    if i > 0 {
        lemma_header_len_nonneg(items, i - 1);
    }
}

proof fn lemma_header_len_mono(items: Seq<ItemView>, i: int, j: int)
    requires
        0 <= i <= j,
    ensures
        spec_header_len(items, i) <= spec_header_len(items, j),
        spec_header_len(items, i) >= 0,
    decreases j,
{
    lemma_header_len_nonneg(items, i);
    if j > i {
        lemma_header_len_mono(items, i, j - 1);
    }
}

proof fn lemma_prefix_len_nonneg(bv: Seq<Seq<u8>>, i: int)
    ensures
        spec_prefix_len(bv, i) >= 0,
    decreases i,
{
    if i > 0 {
        lemma_prefix_len_nonneg(bv, i - 1);
    }
}

proof fn lemma_prefix_len_mono(bv: Seq<Seq<u8>>, i: int, j: int)
    requires
        0 <= i <= j,
    ensures
        spec_prefix_len(bv, i) <= spec_prefix_len(bv, j),
        spec_prefix_len(bv, i) >= 0,
    decreases j,
{
    lemma_prefix_len_nonneg(bv, i);
    if j > i {
        lemma_prefix_len_mono(bv, i, j - 1);
    }
}

proof fn lemma_concat_n_len(bv: Seq<Seq<u8>>, n: int)
    requires
        0 <= n <= bv.len(),
    ensures
        spec_concat_n(bv, n).len() == spec_prefix_len(bv, n),
    decreases n,
{
    if n > 0 {
        lemma_concat_n_len(bv, n - 1);
    }
}

proof fn lemma_record_len(v: ItemView)
    requires
        v.name is Some,
    ensures
        spec_record_bytes(v).len() == spec_item_len(v),
{
    lemma_auto_spec_u64_to_from_le_bytes();
    lemma_auto_spec_u16_to_from_le_bytes();
}

proof fn lemma_records_len(items: Seq<ItemView>, n: int)
    requires
        0 <= n <= items.len(),
        forall|m: int| 0 <= m < items.len() ==> (#[trigger] items[m]).name is Some,
    ensures
        spec_records_bytes(items, n).len() == spec_header_len(items, n),
    decreases n,
{
    if n > 0 {
        lemma_records_len(items, n - 1);
        lemma_record_len(items[n - 1]);
    }
}

proof fn lemma_concat_n_sub(bv: Seq<Seq<u8>>, n: int, i: int)
    requires
        0 <= i < n <= bv.len(),
    ensures
        spec_concat_n(bv, n).subrange(
            spec_prefix_len(bv, i),
            spec_prefix_len(bv, i) + bv[i].len() as int,
        ) == bv[i],
    decreases n,
{
    lemma_concat_n_len(bv, n - 1);
    lemma_prefix_len_mono(bv, 0, i);
    if i == n - 1 {
        assert(spec_concat_n(bv, n).subrange(
            spec_prefix_len(bv, i),
            spec_prefix_len(bv, i) + bv[i].len() as int,
        ) =~= bv[i]);
    } else {
        lemma_concat_n_sub(bv, n - 1, i);
        lemma_prefix_len_mono(bv, i + 1, n - 1);
        assert(spec_concat_n(bv, n).subrange(
            spec_prefix_len(bv, i),
            spec_prefix_len(bv, i) + bv[i].len() as int,
        ) =~= spec_concat_n(bv, n - 1).subrange(
            spec_prefix_len(bv, i),
            spec_prefix_len(bv, i) + bv[i].len() as int,
        ));
    }
}

proof fn lemma_records_sub(items: Seq<ItemView>, n: int, i: int)
    requires
        0 <= i < n <= items.len(),
        forall|m: int| 0 <= m < items.len() ==> (#[trigger] items[m]).name is Some,
    ensures
        spec_records_bytes(items, n).subrange(
            spec_header_len(items, i),
            spec_header_len(items, i) + spec_item_len(items[i]),
        ) == spec_record_bytes(items[i]),
    decreases n,
{
    lemma_records_len(items, n - 1);
    lemma_header_len_mono(items, 0, i);
    lemma_record_len(items[i]);
    if i == n - 1 {
        assert(spec_records_bytes(items, n).subrange(
            spec_header_len(items, i),
            spec_header_len(items, i) + spec_item_len(items[i]),
        ) =~= spec_record_bytes(items[i]));
    } else {
        lemma_records_sub(items, n - 1, i);
        lemma_header_len_mono(items, i + 1, n - 1);
        assert(spec_records_bytes(items, n).subrange(
            spec_header_len(items, i),
            spec_header_len(items, i) + spec_item_len(items[i]),
        ) =~= spec_records_bytes(items, n - 1).subrange(
            spec_header_len(items, i),
            spec_header_len(items, i) + spec_item_len(items[i]),
        ));
    }
}

/// The eight-byte little-endian field at byte position `pos`.
pub open spec fn spec_decode_u64(bytes: Seq<u8>, pos: int) -> u64 {
    spec_u64_from_le_bytes(bytes.subrange(pos, pos + 8))
}

/// The two-byte little-endian field at byte position `pos`.
pub open spec fn spec_decode_u16(bytes: Seq<u8>, pos: int) -> u16 {
    spec_u16_from_le_bytes(bytes.subrange(pos, pos + 2))
}

/// Law of the round trip: in a rendered archive, decoding any entry's header
/// record recovers exactly the entry's finalized fields, and the bytes from
/// the decoded offset through the decoded length are exactly that entry's
/// compressed data block — so decompressing them reproduces the entry's
/// source contents, by the encoder's own contract.
#[verifier::rlimit(100)]
pub proof fn lemma_record_round_trip(
    items0: Seq<ItemView>,
    items1: Seq<ItemView>,
    bv: Seq<Seq<u8>>,
    bytes: Seq<u8>,
    i: int,
)
    requires
        archive_rendered(items0, items1, bv, bytes),
        spec_items_writable(items0),
        spec_fits(items0, bv),
        0 <= i < items0.len(),
    ensures
        ({
            let ho = spec_header_len(items0, i);
            let nm = vstd::utf8::encode_utf8(items0[i].name->Some_0);
            let off = spec_decode_u64(bytes, ho);
            let dlen = spec_decode_u64(bytes, ho + 8);
            let nlen = spec_decode_u16(bytes, ho + 16);
            &&& items1[i].data_offset == Option::Some(off)
            &&& items1[i].data_length == Option::Some(dlen)
            &&& nlen == nm.len()
            &&& bytes.subrange(ho + 18, ho + 18 + nlen as int) == nm
            &&& vstd::utf8::decode_utf8(bytes.subrange(ho + 18, ho + 18 + nlen as int))
                == items0[i].name->Some_0
            &&& bytes.subrange(off as int, off as int + dlen as int) == bv[i]
        }),
{
    lemma_auto_spec_u64_to_from_le_bytes();
    lemma_auto_spec_u16_to_from_le_bytes();
    let n = items0.len() as int;
    let hlen = spec_header_len(items0, n);
    let ho = spec_header_len(items0, i);
    let name = items0[i].name->Some_0;
    let nm = vstd::utf8::encode_utf8(name);
    let pb = spec_path_bytes(items0[i]);
    assert(items1[i] == (ItemView {
        header_offset: Option::Some(spec_header_len(items0, i)),
        data_offset: Option::Some((hlen + spec_prefix_len(bv, i)) as u64),
        data_length: Option::Some(bv[i].len() as u64),
        ..items0[i]
    }));
    assert(forall|m: int| 0 <= m < n ==> (#[trigger] items1[m]).name == items0[m].name);
    assert(forall|m: int| 0 <= m < n ==> (#[trigger] items1[m]).path == items0[m].path);
    assert(forall|m: int|
        0 <= m < n ==> spec_item_len(#[trigger] items1[m]) == spec_item_len(items0[m]));
    assert(forall|m: int| 0 <= m < items1.len() ==> (#[trigger] items1[m]).name is Some);
    lemma_headers_len_agree(items0, items1, n);
    lemma_headers_len_agree(items0, items1, i);
    lemma_records_len(items1, n);
    lemma_records_sub(items1, n, i);
    lemma_record_len(items1[i]);
    lemma_header_len_mono(items0, 0, i);
    lemma_header_len_mono(items0, i + 1, n);
    lemma_prefix_len_mono(bv, 0, i);
    lemma_prefix_len_mono(bv, i + 1, bv.len() as int);
    let recs = spec_records_bytes(items1, n);
    let rec = spec_record_bytes(items1[i]);
    assert(recs.subrange(ho, ho + spec_item_len(items1[i])) == rec);
    assert(spec_item_len(items1[i]) == 20 + nm.len() + pb.len());
    // The record's fields, relocated into the archive's bytes.
    assert(bytes.subrange(ho, ho + spec_item_len(items1[i])) =~= rec);
    let doff_u64 = (hlen + spec_prefix_len(bv, i)) as u64;
    let dlen_u64 = bv[i].len() as u64;
    assert(spec_record_bytes(items1[i]) == spec_u64_to_le_bytes(doff_u64) + spec_u64_to_le_bytes(
        dlen_u64,
    ) + spec_u16_to_le_bytes(nm.len() as u16) + nm + spec_u16_to_le_bytes(pb.len() as u16) + pb);
    assert(rec.subrange(0, 8) =~= spec_u64_to_le_bytes(doff_u64));
    assert(rec.subrange(8, 16) =~= spec_u64_to_le_bytes(dlen_u64));
    assert(rec.subrange(16, 18) =~= spec_u16_to_le_bytes(nm.len() as u16));
    assert(rec.subrange(18, 18 + nm.len() as int) =~= nm);
    assert(bytes.subrange(ho, ho + 8) =~= rec.subrange(0, 8));
    assert(bytes.subrange(ho + 8, ho + 16) =~= rec.subrange(8, 16));
    assert(bytes.subrange(ho + 16, ho + 18) =~= rec.subrange(16, 18));
    assert(bytes.subrange(ho + 18, ho + 18 + nm.len() as int) =~= rec.subrange(
        18,
        18 + nm.len() as int,
    ));
    vstd::utf8::encode_utf8_decode_utf8(name);
    // The decoded offset and length point at exactly the entry's block.
    let off = spec_decode_u64(bytes, ho);
    let dlen = spec_decode_u64(bytes, ho + 8);
    assert(off == doff_u64);
    assert(dlen == dlen_u64);
    assert(hlen + spec_prefix_len(bv, i) + bv[i].len() <= hlen + spec_prefix_len(
        bv,
        bv.len() as int,
    ));
    assert(off as int == hlen + spec_prefix_len(bv, i));
    assert(dlen as int == bv[i].len() as int);
    assert(bytes.subrange(off as int, off as int + dlen as int) == bv[i]);
}

/// Law of name reversibility: for any name whose encoding fits the two-byte
/// length field, decoding the `name_length` and `name` fields of its own
/// encoding yields the name itself.
pub proof fn lemma_name_field_reversible(name: Seq<char>)
    requires
        vstd::utf8::encode_utf8(name).len() <= 0xffff,
    ensures
        ({
            let nm = vstd::utf8::encode_utf8(name);
            let field = spec_u16_to_le_bytes(nm.len() as u16) + nm;
            &&& spec_decode_u16(field, 0) == nm.len()
            &&& field.subrange(2, 2 + spec_decode_u16(field, 0) as int) == nm
            &&& vstd::utf8::decode_utf8(field.subrange(2, 2 + spec_decode_u16(field, 0) as int))
                == name
        }),
{
    lemma_auto_spec_u16_to_from_le_bytes();
    let nm = vstd::utf8::encode_utf8(name);
    let field = spec_u16_to_le_bytes(nm.len() as u16) + nm;
    assert(field.subrange(0, 2) =~= spec_u16_to_le_bytes(nm.len() as u16));
    assert(field.subrange(2, 2 + nm.len() as int) =~= nm);
    vstd::utf8::encode_utf8_decode_utf8(name);
}

/// Finalizes the header against the given data blocks and renders the whole
/// archive: the records in item order, then the blocks in the same order.
/// Succeeds exactly when every record can be serialized and the archive
/// fits the platform; on failure the header is left untouched.
pub fn finalize_and_render(header: &mut Header, blocks: &Vec<Vec<u8>>) -> (r: Result<
    Vec<u8>,
    String,
>)
    requires
        old(header).items@.len() == blocks@.len(),
    ensures
        match r {
            Result::Ok(bytes) => {
                let items0 = items_views(old(header).items@);
                let bv = blocks_views(blocks@);
                &&& spec_items_writable(items0)
                &&& spec_fits(items0, bv)
                &&& archive_rendered(items0, items_views(final(header).items@), bv, bytes@)
            },
            Result::Err(_) => {
                let items0 = items_views(old(header).items@);
                let bv = blocks_views(blocks@);
                &&& items_views(final(header).items@) == items0
                &&& !(spec_items_writable(items0) && spec_fits(items0, bv))
            },
        },
{
    let ghost items0 = items_views(header.items@);
    let ghost bv = blocks_views(blocks@);
    let n = header.items.len();

    // First pass: every record must be serializable, and the header's total
    // length is the sum of the records' lengths.
    let mut hlen: usize = 0;
    let mut i: usize = 0;
    while i < n
        invariant
            i <= n,
            n == header.items@.len(),
            items0 == items_views(header.items@),
            bv == blocks_views(blocks@),
            forall|m: int| 0 <= m < i ==> writable_item(#[trigger] items0[m]),
            hlen == spec_header_len(items0, i as int),
        decreases n - i,
    {
        let it = &header.items[i];
        proof {
            assert(items0[i as int] == header.items@[i as int]@);
        }
        let name = match &it.name {
            Some(nm) => nm,
            None => {
                proof {
                    assert(!writable_item(items0[i as int]));
                    assert(!spec_items_writable(items0));
                }
                return Err("Header item name not specified".to_owned());
            },
        };
        if name.as_str().as_bytes().len() > 0xffff {
            proof {
                assert(!writable_item(items0[i as int]));
                assert(!spec_items_writable(items0));
            }
            return Err("Name string is too long".to_owned());
        }
        let path_str = crate::paths::to_slash(&it.path);
        if path_str.as_str().as_bytes().len() > 0xffff {
            proof {
                assert(!writable_item(items0[i as int]));
                assert(!spec_items_writable(items0));
            }
            return Err("Path string is too long".to_owned());
        }
        let il = it.length();
        proof {
            assert(il == spec_item_len(items0[i as int]));
        }
        hlen = match hlen.checked_add(il) {
            Some(v) => v,
            None => {
                proof {
                    assert(forall|m: int|
                        0 <= m < i + 1 ==> writable_item(#[trigger] items0[m]));
                    if spec_items_writable(items0) {
                        assert(forall|m: int|
                            0 <= m < items0.len() ==> (#[trigger] items0[m]).name is Some);
                        lemma_header_len_mono(items0, i as int + 1, items0.len() as int);
                        lemma_prefix_len_mono(bv, 0, bv.len() as int);
                        assert(!spec_fits(items0, bv));
                    }
                }
                return Err("Archive size exceeds supported range".to_owned());
            },
        };
        i = i + 1;
    }
    proof {
        assert(spec_items_writable(items0));
        assert(forall|m: int| 0 <= m < items0.len() ==> (#[trigger] items0[m]).name is Some);
    }

    // Second pass: the archive's total size must fit, block by block.
    let mut total: usize = hlen;
    let mut i: usize = 0;
    while i < n
        invariant
            i <= n,
            n == header.items@.len(),
            n == blocks@.len(),
            items0 == items_views(header.items@),
            bv == blocks_views(blocks@),
            bv.len() == n,
            spec_items_writable(items0),
            hlen == spec_header_len(items0, items0.len() as int),
            total == hlen + spec_prefix_len(bv, i as int),
        decreases n - i,
    {
        total = match total.checked_add(blocks[i].len()) {
            Some(v) => v,
            None => {
                proof {
                    lemma_prefix_len_mono(bv, i as int + 1, bv.len() as int);
                    assert(!spec_fits(items0, bv));
                }
                return Err("Archive size exceeds supported range".to_owned());
            },
        };
        i = i + 1;
    }
    proof {
        assert(total == hlen + spec_prefix_len(bv, bv.len() as int));
        assert(spec_fits(items0, bv));
    }
    let ghost items1 = spec_final_views(items0, bv);

    // Third pass: finalize each item and serialize its record.
    let mut out: Vec<u8> = Vec::new();
    let mut done: Vec<HeaderItem> = Vec::new();
    let mut pos: usize = 0;
    let mut off: usize = hlen;
    let mut i: usize = 0;
    while i < n
        invariant
            i <= n,
            n == header.items@.len(),
            n == blocks@.len(),
            items0 == items_views(header.items@),
            bv == blocks_views(blocks@),
            bv.len() == n,
            items1 == spec_final_views(items0, bv),
            spec_items_writable(items0),
            hlen == spec_header_len(items0, items0.len() as int),
            hlen + spec_prefix_len(bv, bv.len() as int) <= usize::MAX,
            done@.len() == i,
            forall|m: int| 0 <= m < i ==> #[trigger] done@[m]@ == items1[m],
            pos == spec_header_len(items0, i as int),
            off == hlen + spec_prefix_len(bv, i as int),
            out@ == spec_records_bytes(items1, i as int),
        decreases n - i,
    {
        proof {
            lemma_header_len_mono(items0, i as int + 1, items0.len() as int);
            lemma_header_len_mono(items0, 0, i as int);
            lemma_prefix_len_mono(bv, i as int + 1, bv.len() as int);
            lemma_prefix_len_mono(bv, 0, i as int);
        }
        let src = &header.items[i];
        let name = match &src.name {
            Some(nm) => Some(nm.clone()),
            None => None,
        };
        let dlen = blocks[i].len();
        let mut it = HeaderItem {
            path: src.path.duplicate(),
            name,
            header_offset: None,
            data_offset: Some(off as u64),
            data_length: Some(dlen as u64),
        };
        let ghost pre = it@;
        proof {
            assert(pre == (ItemView {
                header_offset: Option::None::<int>,
                data_offset: Option::Some((hlen + spec_prefix_len(bv, i as int)) as u64),
                data_length: Option::Some(bv[i as int].len() as u64),
                ..items0[i as int]
            }));
            assert(spec_item_len(pre) == spec_item_len(items0[i as int]));
        }
        pos = match it.write(pos, &mut out) {
            Ok(p) => p,
            Err(_) => {
                proof {
                    assert(writable_item(items0[i as int]));
                    assert(false);
                }
                return Err("Header item name not specified".to_owned());
            },
        };
        proof {
            assert(it@ == items1[i as int]);
            assert(spec_record_bytes(pre) == spec_record_bytes(items1[i as int]));
            assert(out@ == spec_records_bytes(items1, i as int + 1));
        }
        off = off + dlen;
        done.push(it);
        i = i + 1;
    }
    proof {
        assert(forall|m: int|
            0 <= m < items1.len() ==> (#[trigger] items1[m]).name is Some);
        lemma_records_len(items1, n as int);
        assert(forall|m: int|
            0 <= m < n ==> spec_item_len(#[trigger] items1[m]) == spec_item_len(items0[m]));
        lemma_headers_len_agree(items0, items1, n as int);
    }

    // Fourth pass: the data blocks follow the header, in order.
    let mut i: usize = 0;
    let ghost recs = out@;
    while i < n
        invariant
            i <= n,
            n == blocks@.len(),
            bv == blocks_views(blocks@),
            out@ == recs + spec_concat_n(bv, i as int),
        decreases n - i,
    {
        let mut j: usize = 0;
        let ghost seg = out@;
        while j < blocks[i].len()
            invariant
                i < n,
                n == blocks@.len(),
                bv == blocks_views(blocks@),
                j <= blocks@[i as int]@.len(),
                out@ == seg + bv[i as int].subrange(0, j as int),
            decreases blocks@[i as int]@.len() - j,
        {
            let byte = blocks[i][j];
            out.push(byte);
            proof {
                assert(bv[i as int].subrange(0, j as int + 1) =~= bv[i as int].subrange(
                    0,
                    j as int,
                ).push(bv[i as int][j as int]));
                assert(out@ =~= seg + bv[i as int].subrange(0, j as int + 1));
            }
            j = j + 1;
        }
        proof {
            assert(bv[i as int].subrange(0, bv[i as int].len() as int) =~= bv[i as int]);
            assert(seg + bv[i as int] =~= recs + spec_concat_n(bv, i as int + 1)) by {
                assert(seg == recs + spec_concat_n(bv, i as int));
            }
        }
        i = i + 1;
    }

    header.items = done;
    proof {
        assert(items_views(header.items@) =~= items1);
        lemma_records_len(items1, n as int);
        lemma_concat_n_len(bv, n as int);
        assert(out@.len() == spec_header_len(items1, n as int) + spec_prefix_len(bv, n as int));
        assert forall|k: int|
            0 <= k < n implies out@.subrange(
            hlen + spec_prefix_len(bv, k),
            hlen + spec_prefix_len(bv, k) + bv[k].len() as int,
        ) == bv[k] by {
            lemma_concat_n_sub(bv, n as int, k);
            lemma_prefix_len_mono(bv, 0, k);
            lemma_prefix_len_mono(bv, k + 1, n as int);
            assert(recs.len() == hlen);
            assert(out@.subrange(
                hlen + spec_prefix_len(bv, k),
                hlen + spec_prefix_len(bv, k) + bv[k].len() as int,
            ) =~= spec_concat_n(bv, n as int).subrange(
                spec_prefix_len(bv, k),
                spec_prefix_len(bv, k) + bv[k].len() as int,
            ));
        }
        assert(archive_rendered(items0, items_views(header.items@), bv, out@));
    }
    Ok(out)
}

proof fn lemma_headers_len_agree(items0: Seq<ItemView>, items1: Seq<ItemView>, n: int)
    requires
        0 <= n <= items0.len(),
        n <= items1.len(),
        forall|m: int|
            0 <= m < n ==> spec_item_len(#[trigger] items1[m]) == spec_item_len(items0[m]),
    ensures
        spec_header_len(items1, n) == spec_header_len(items0, n),
    decreases n,
{
    if n > 0 {
        lemma_headers_len_agree(items0, items1, n - 1);
    }
}

/// The compressed data blocks a job's source contents yield, in item order.
pub open spec fn spec_zlib_blocks(contents: Seq<Vec<u8>>) -> Seq<Seq<u8>> {
    Seq::new(contents.len(), |i: int| zlib_of(contents[i]@))
}

/// Compresses each item's source bytes and renders the archive: header
/// records first, one compressed data block per item after, each block's
/// recorded offset and length matching its place. Succeeds exactly when
/// every record can be serialized and the archive fits the platform; on
/// failure the header is left untouched.
pub fn write_archive(header: &mut Header, contents: &Vec<Vec<u8>>) -> (r: Result<Vec<u8>, String>)
    requires
        old(header).items@.len() == contents@.len(),
    ensures
        match r {
            Result::Ok(bytes) => {
                let items0 = items_views(old(header).items@);
                let bv = spec_zlib_blocks(contents@);
                &&& spec_items_writable(items0)
                &&& spec_fits(items0, bv)
                &&& archive_rendered(items0, items_views(final(header).items@), bv, bytes@)
            },
            Result::Err(_) => {
                let items0 = items_views(old(header).items@);
                let bv = spec_zlib_blocks(contents@);
                &&& items_views(final(header).items@) == items0
                &&& !(spec_items_writable(items0) && spec_fits(items0, bv))
            },
        },
{
    let ghost bv = spec_zlib_blocks(contents@);
    let mut blocks: Vec<Vec<u8>> = Vec::new();
    let mut i: usize = 0;
    while i < contents.len()
        invariant
            i <= contents.len(),
            bv == spec_zlib_blocks(contents@),
            blocks@.len() == i,
            forall|m: int| 0 <= m < i ==> #[trigger] blocks@[m]@ == bv[m],
        decreases contents.len() - i,
    {
        let block = match zlib_compress(&contents[i]) {
            Ok(b) => b,
            Err(_) => {
                proof {
                    assert(false);
                }
                return Err("Unable to encode data".to_owned());
            },
        };
        blocks.push(block);
        i = i + 1;
    }
    proof {
        assert(blocks_views(blocks@) =~= bv);
    }
    finalize_and_render(header, &blocks)
}

} // verus!
