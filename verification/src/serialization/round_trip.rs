//! The round-trip law of the codec: reading back a written container
//! reproduces the entity exactly.

use crate::entity::{AttrView, ChunkView, EntityView, HeaderView, ObjectView, PathView};
use crate::serialization::wire::{
    be_bytes, bytes_to_chars, chars_to_bytes, code_bytes_ok, code_ok, data_code, date_key,
    empty_header, enc_attr, enc_attrs, enc_chunk, enc_data_chunks, enc_object, enc_objects,
    enc_other_chunks, enc_path, enc_point, enc_points, fend_code, fold_header_attrs, fold_one,
    from_be, head_code, header_attr_list, heig_key, lemma_be_bytes_len,
    lemma_enc_attrs_elem_bound, lemma_enc_data_chunks_elem_bound, lemma_enc_objects_elem_bound,
    lemma_enc_other_chunks_elem_bound, lemma_enc_points_len, lemma_from_be_be_bytes,
    lemma_header_payload_len_indep, lemma_pow256_values, lemma_split_nul_found, magic_bytes,
    parse_attr, parse_attrs, parse_chunk, parse_chunks, parse_entity, parse_header, parse_object,
    parse_objects, parse_points, path_type_byte, pow256, recognized_key, size_attr, size_key,
    spec_write, spec_write_len, spec_write_with, split_nul, valid_attr, valid_chunk, valid_entity,
    valid_object, widt_key, wire_char,
};
use vstd::prelude::*;

verus! {

/// Encoding then decoding one attribute leaves any trailing bytes intact.
proof fn lemma_parse_attr_of_enc(a: AttrView, rest: Seq<u8>)
    requires
        code_ok(a.key),
        8 + a.val.len() < 0x100000000,
    ensures
        parse_attr(enc_attr(a) + rest) == Option::Some((a, rest)),
{
    let s = enc_attr(a) + rest;
    lemma_pow256_values();
    lemma_be_bytes_len(8 + a.val.len() as int, 4);
    assert(s.subrange(0, 4) =~= be_bytes(8 + a.val.len() as int, 4));
    lemma_from_be_be_bytes(8 + a.val.len() as int, 4);
    let size = 8 + a.val.len() as int;
    assert(from_be(s.subrange(0, 4)) == size);
    assert(s.subrange(4, 8) =~= chars_to_bytes(a.key));
    assert forall|i: int| 0 <= i < 4 implies 0 < #[trigger] chars_to_bytes(a.key)[i] < 128 by {
        assert(wire_char(a.key[i]));
        assert(chars_to_bytes(a.key)[i] == a.key[i] as u8);
    }
    assert(code_bytes_ok(s.subrange(4, 8)));
    assert(bytes_to_chars(chars_to_bytes(a.key)) =~= a.key);
    assert(s.subrange(8, size) =~= a.val);
    assert(s.skip(size) =~= rest);
}

/// Encoding then decoding an attribute list gives the list back.
proof fn lemma_parse_attrs_of_enc(l: Seq<AttrView>)
    requires
        forall|i: int| 0 <= i < l.len() ==> code_ok(#[trigger] l[i].key),
        forall|i: int| 0 <= i < l.len() ==> 8 + (#[trigger] l[i].val).len() < 0x100000000,
    ensures
        parse_attrs(enc_attrs(l)) == Option::Some(l),
    decreases l.len(),
{
    if l.len() == 0 {
    } else {
        lemma_parse_attrs_of_enc(l.drop_first());
        lemma_parse_attr_of_enc(l[0], enc_attrs(l.drop_first()));
        lemma_be_bytes_len(8 + l[0].val.len() as int, 4);
        assert(enc_attrs(l) == enc_attr(l[0]) + enc_attrs(l.drop_first()));
        assert(enc_attrs(l).len() > 0);
        assert(seq![l[0]] + l.drop_first() =~= l);
    }
}

/// Folding a list of unrecognized attributes only appends them, in order.
proof fn lemma_fold_unrecognized(l: Seq<AttrView>, acc: HeaderView)
    requires
        forall|i: int| 0 <= i < l.len() ==> valid_attr(#[trigger] l[i]),
    ensures
        fold_header_attrs(l, acc) == Option::Some(
            (HeaderView { other_attributes: acc.other_attributes + l, ..acc }),
        ),
    decreases l.len(),
{
    if l.len() == 0 {
        assert(acc.other_attributes + l =~= acc.other_attributes);
    } else {
        assert(valid_attr(l[0]));
        let acc2 = HeaderView {
            other_attributes: acc.other_attributes.push(l[0]),
            ..acc
        };
        assert(fold_one(l[0], acc) == Option::Some(acc2));
        lemma_fold_unrecognized(l.drop_first(), acc2);
        assert(acc.other_attributes.push(l[0]) + l.drop_first() =~= acc.other_attributes + l);
    }
}

/// Folding the written header attribute list reconstructs the header.
proof fn lemma_fold_of_header_list(h: HeaderView, sv: int)
    requires
        forall|i: int| 0 <= i < h.other_attributes.len() ==> valid_attr(
            #[trigger] h.other_attributes[i],
        ),
    ensures
        fold_header_attrs(header_attr_list(h, sv), empty_header()) == Option::Some(h),
{
    let l = header_attr_list(h, sv);
    lemma_be_bytes_len(sv, 8);
    lemma_be_bytes_len(h.width as int, 2);
    lemma_be_bytes_len(h.height as int, 2);
    lemma_pow256_values();
    // The fixed prefix: size placeholder, width, height, optional date.
    assert(size_key()[0] != widt_key()[0] && size_key()[0] != heig_key()[0] && size_key()[0]
        != date_key()[0]);
    assert(widt_key()[0] != heig_key()[0] && widt_key()[0] != date_key()[0]);
    assert(heig_key()[2] != date_key()[2]);
    let a0 = empty_header();
    assert(l[0] == size_attr(sv));
    assert(fold_one(l[0], a0) == Option::Some(a0));
    let a1 = a0;
    assert(l[1].key == widt_key());
    assert(be_bytes(h.width as int, 2).take(2) =~= be_bytes(h.width as int, 2));
    lemma_from_be_be_bytes(h.width as int, 2);
    let a2 = HeaderView { width: h.width, ..a1 };
    assert(fold_one(l[1], a1) == Option::Some(a2));
    assert(l[2].key == heig_key());
    assert(be_bytes(h.height as int, 2).take(2) =~= be_bytes(h.height as int, 2));
    lemma_from_be_be_bytes(h.height as int, 2);
    let a3 = HeaderView { height: h.height, ..a2 };
    assert(fold_one(l[2], a2) == Option::Some(a3));
    match h.creation_date {
        Option::None => {
            assert(l.drop_first().drop_first().drop_first() =~= h.other_attributes);
            lemma_fold_unrecognized(h.other_attributes, a3);
            assert(a3.other_attributes + h.other_attributes =~= h.other_attributes);
            assert(fold_header_attrs(l, a0) == fold_header_attrs(l.drop_first(), a1));
            assert(l.drop_first()[0] == l[1]);
            assert(l.drop_first().drop_first()[0] == l[2]);
            assert(fold_header_attrs(l.drop_first(), a1) == fold_header_attrs(
                l.drop_first().drop_first(),
                a2,
            ));
            assert(fold_header_attrs(l.drop_first().drop_first(), a2) == fold_header_attrs(
                l.drop_first().drop_first().drop_first(),
                a3,
            ));
            assert((HeaderView { other_attributes: h.other_attributes, ..a3 }) == h);
        },
        Option::Some(d) => {
            lemma_be_bytes_len(d as int, 8);
            assert(l[3].key == date_key());
            assert(be_bytes(d as int, 8).take(8) =~= be_bytes(d as int, 8));
            lemma_from_be_be_bytes(d as int, 8);
            let a4 = HeaderView { creation_date: Option::Some(d), ..a3 };
            assert(fold_one(l[3], a3) == Option::Some(a4));
            assert(l.drop_first().drop_first().drop_first().drop_first() =~= h.other_attributes);
            lemma_fold_unrecognized(h.other_attributes, a4);
            assert(a4.other_attributes + h.other_attributes =~= h.other_attributes);
            assert(fold_header_attrs(l, a0) == fold_header_attrs(l.drop_first(), a1));
            assert(l.drop_first()[0] == l[1]);
            assert(l.drop_first().drop_first()[0] == l[2]);
            assert(l.drop_first().drop_first().drop_first()[0] == l[3]);
            assert(fold_header_attrs(l.drop_first(), a1) == fold_header_attrs(
                l.drop_first().drop_first(),
                a2,
            ));
            assert(fold_header_attrs(l.drop_first().drop_first(), a2) == fold_header_attrs(
                l.drop_first().drop_first().drop_first(),
                a3,
            ));
            assert(fold_header_attrs(l.drop_first().drop_first().drop_first(), a3)
                == fold_header_attrs(
                l.drop_first().drop_first().drop_first().drop_first(),
                a4,
            ));
            assert((HeaderView { other_attributes: h.other_attributes, ..a4 }) == h);
        },
    }
}

/// Encoding then decoding a vertex list gives the list back.
proof fn lemma_parse_points_of_enc(ps: Seq<(u16, u16)>)
    ensures
        parse_points(enc_points(ps)) == Option::Some(ps),
    decreases ps.len(),
{
    lemma_enc_points_len(ps);
    if ps.len() == 0 {
    } else {
        lemma_parse_points_of_enc(ps.drop_first());
        let s = enc_points(ps);
        lemma_pow256_values();
        lemma_be_bytes_len(ps[0].0 as int, 2);
        lemma_be_bytes_len(ps[0].1 as int, 2);
        lemma_enc_points_len(ps.drop_first());
        assert(s =~= enc_point(ps[0]) + enc_points(ps.drop_first()));
        assert(s.len() == 4 + 4 * ps.drop_first().len());
        assert(s.subrange(0, 2) =~= be_bytes(ps[0].0 as int, 2));
        assert(s.subrange(2, 4) =~= be_bytes(ps[0].1 as int, 2));
        lemma_from_be_be_bytes(ps[0].0 as int, 2);
        lemma_from_be_be_bytes(ps[0].1 as int, 2);
        assert(s.skip(4) =~= enc_points(ps.drop_first()));
        assert(seq![ps[0]] + ps.drop_first() =~= ps);
    }
}

/// Encoding then decoding one object leaves any trailing bytes intact.
proof fn lemma_parse_object_of_enc(o: ObjectView, rest: Seq<u8>)
    requires
        enc_object(o).len() < 0x100000000,
    ensures
        parse_object(enc_object(o) + rest) == Option::Some((o, rest)),
{
    match o {
        ObjectView::Path(p) => {
            let s = enc_object(o) + rest;
            lemma_pow256_values();
            lemma_be_bytes_len(8 + 4 * p.points.len() as int, 4);
            lemma_enc_points_len(p.points);
            let size = 8 + 4 * p.points.len() as int;
            assert(enc_object(o).len() == size);
            assert(s.subrange(0, 4) =~= be_bytes(size, 4));
            lemma_from_be_be_bytes(size, 4);
            assert(s[4] == path_type_byte());
            assert(s[5] == p.color.0 && s[6] == p.color.1 && s[7] == p.color.2);
            assert(s.subrange(8, size) =~= enc_points(p.points));
            lemma_parse_points_of_enc(p.points);
            assert(s.skip(size) =~= rest);
            assert((PathView { color: (s[5], s[6], s[7]), points: p.points }) == p);
        },
    }
}

/// Encoding then decoding an object list gives the list back.
proof fn lemma_parse_objects_of_enc(os: Seq<ObjectView>)
    requires
        forall|i: int| 0 <= i < os.len() ==> (#[trigger] enc_object(os[i])).len() < 0x100000000,
    ensures
        parse_objects(enc_objects(os)) == Option::Some(os),
    decreases os.len(),
{
    if os.len() == 0 {
    } else {
        lemma_parse_objects_of_enc(os.drop_first());
        lemma_parse_object_of_enc(os[0], enc_objects(os.drop_first()));
        match os[0] {
            ObjectView::Path(p) => {
                lemma_be_bytes_len(8 + 4 * p.points.len() as int, 4);
            },
        }
        assert(enc_objects(os) == enc_object(os[0]) + enc_objects(os.drop_first()));
        assert(enc_objects(os).len() > 0);
        assert(seq![os[0]] + os.drop_first() =~= os);
    }
}

/// Encoding then decoding one chunk leaves any trailing bytes intact.
proof fn lemma_parse_chunk_of_enc(code: Seq<char>, payload: Seq<u8>, rest: Seq<u8>)
    requires
        code_ok(code),
        8 + payload.len() < 0x100000000,
    ensures
        parse_chunk(enc_chunk(code, payload) + rest) == Option::Some((code, payload, rest)),
{
    let s = enc_chunk(code, payload) + rest;
    lemma_pow256_values();
    lemma_be_bytes_len(8 + payload.len() as int, 4);
    let size = 8 + payload.len() as int;
    assert(s.subrange(0, 4) =~= be_bytes(size, 4));
    lemma_from_be_be_bytes(size, 4);
    assert(s.subrange(4, 8) =~= chars_to_bytes(code));
    assert forall|i: int| 0 <= i < 4 implies 0 < #[trigger] chars_to_bytes(code)[i] < 128 by {
        assert(wire_char(code[i]));
        assert(chars_to_bytes(code)[i] == code[i] as u8);
    }
    assert(code_bytes_ok(s.subrange(4, 8)));
    assert(bytes_to_chars(chars_to_bytes(code)) =~= code);
    assert(s.subrange(8, size) =~= payload);
    assert(s.skip(size) =~= rest);
}

/// Decoding the written chunk sequence recovers the data chunks and the
/// opaque chunks, in their original order.
proof fn lemma_parse_chunks_of_enc(ds: Seq<Seq<ObjectView>>, os: Seq<ChunkView>)
    requires
        forall|i: int, j: int|
            0 <= i < ds.len() && 0 <= j < ds[i].len() ==> (#[trigger] enc_object(
                ds[i][j],
            )).len() < 0x100000000,
        forall|i: int| 0 <= i < ds.len() ==> 8 + (#[trigger] enc_objects(ds[i])).len()
            < 0x100000000,
        forall|i: int| 0 <= i < os.len() ==> valid_chunk(#[trigger] os[i]),
        forall|i: int| 0 <= i < os.len() ==> 8 + (#[trigger] os[i].data).len() < 0x100000000,
    ensures
        parse_chunks(
            enc_data_chunks(ds) + enc_other_chunks(os) + enc_chunk(fend_code(), Seq::empty()),
        ) == Option::Some((ds, os)),
    decreases ds.len() + os.len(),
{
    let fend = enc_chunk(fend_code(), Seq::empty());
    lemma_pow256_values();
    if ds.len() > 0 {
        let tail = enc_data_chunks(ds.drop_first()) + enc_other_chunks(os) + fend;
        let s = enc_data_chunks(ds) + enc_other_chunks(os) + fend;
        assert(s =~= enc_chunk(data_code(), enc_objects(ds[0])) + tail);
        assert forall|i: int| 0 <= i < 4 implies wire_char(#[trigger] data_code()[i]) by {}
        lemma_parse_chunk_of_enc(data_code(), enc_objects(ds[0]), tail);
        assert forall|j: int|
            0 <= j < ds[0].len() implies (#[trigger] enc_object(ds[0][j])).len()
            < 0x100000000 by {
            assert(enc_object(ds[0][j]).len() < 0x100000000);
        }
        lemma_parse_objects_of_enc(ds[0]);
        assert(data_code()[0] != fend_code()[0]);
        assert(data_code() != fend_code());
        assert forall|i: int, j: int|
            0 <= i < ds.drop_first().len() && 0 <= j < ds.drop_first()[i].len() implies (
        #[trigger] enc_object(ds.drop_first()[i][j])).len() < 0x100000000 by {
            assert(ds.drop_first()[i] == ds[i + 1]);
        }
        assert forall|i: int|
            0 <= i < ds.drop_first().len() implies 8 + (#[trigger] enc_objects(
            ds.drop_first()[i],
        )).len() < 0x100000000 by {
            assert(ds.drop_first()[i] == ds[i + 1]);
        }
        lemma_parse_chunks_of_enc(ds.drop_first(), os);
        assert(s.len() > 0) by {
            lemma_be_bytes_len(8 + enc_objects(ds[0]).len() as int, 4);
        }
        assert(seq![ds[0]] + ds.drop_first() =~= ds);
    } else if os.len() > 0 {
        let tail = enc_other_chunks(os.drop_first()) + fend;
        let s = enc_data_chunks(ds) + enc_other_chunks(os) + fend;
        assert(s =~= enc_chunk(os[0].code, os[0].data) + tail);
        assert(valid_chunk(os[0]));
        lemma_parse_chunk_of_enc(os[0].code, os[0].data, tail);
        assert forall|i: int|
            0 <= i < os.drop_first().len() implies valid_chunk(#[trigger] os.drop_first()[i])
            && 8 + (os.drop_first()[i].data).len() < 0x100000000 by {
            assert(os.drop_first()[i] == os[i + 1]);
        }
        lemma_parse_chunks_of_enc(Seq::empty(), os.drop_first());
        assert(enc_data_chunks(Seq::<Seq<ObjectView>>::empty()) =~= Seq::<u8>::empty());
        assert(Seq::<u8>::empty() + enc_other_chunks(os.drop_first()) + fend =~= tail);
        assert(s.len() > 0) by {
            lemma_be_bytes_len(8 + os[0].data.len() as int, 4);
        }
        assert(seq![os[0]] + os.drop_first() =~= os);
    } else {
        let s = enc_data_chunks(ds) + enc_other_chunks(os) + fend;
        assert(s =~= fend);
        assert forall|i: int| 0 <= i < 4 implies wire_char(#[trigger] fend_code()[i]) by {}
        lemma_parse_chunk_of_enc(fend_code(), Seq::empty(), Seq::empty());
        assert(fend + Seq::<u8>::empty() =~= fend);
        assert(s.len() > 0) by {
            lemma_be_bytes_len(8, 4);
        }
    }
}

/// A container truncated inside its version string is rejected: with the
/// NUL terminator cut off, no partial entity can come back.
/// A traced document is a valid input for the writer whenever its encoded
/// size fits the format's length fields: the tracer fixes its version and
/// header, keeps no opaque chunks, and yields only non-empty paths.
pub proof fn lemma_traced_entity_valid(
    e: EntityView,
    colors: Seq<crate::s7_image::Rgb>,
    w: int,
    h: int,
    ch: Seq<bool>,
)
    requires
        crate::algorithm::encode::wf_grid(colors, w, h, ch),
        e.version == seq!['1', '.', '0', '.', '0'],
        e.header_chunk.other_attributes == Seq::<AttrView>::empty(),
        e.other_chunks == Seq::<ChunkView>::empty(),
        e.data_chunks == seq![
            crate::algorithm::encode::spec_trace(colors, w, h, ch).map_values(
                |pt: crate::algorithm::encode::PathTrace| crate::algorithm::encode::path_trace_view(
                    pt,
                ),
            ),
        ],
        spec_write_len(e) <= 0x7fffffff,
    ensures
        valid_entity(e),
{
    assert forall|i: int| 0 <= i < e.version.len() implies wire_char(#[trigger] e.version[i]) by {
        assert(wire_char('1') && wire_char('.') && wire_char('0'));
    }
    crate::algorithm::encode::lemma_scan_paths_wf(
        colors, w, h, ch, 0, w, 0, h, Option::None, 0, 0,
    );
    let paths = crate::algorithm::encode::spec_trace(colors, w, h, ch);
    assert forall|i: int, j: int|
        0 <= i < e.data_chunks.len() && 0 <= j < e.data_chunks[i].len() implies valid_object(
        #[trigger] e.data_chunks[i][j],
    ) by {
        assert(e.data_chunks[i][j] == crate::algorithm::encode::path_trace_view(paths[j]));
        assert(crate::algorithm::encode::path_trace_wf(colors, w, paths[j]));
    }
}

/// The container opens with the magic bytes followed by the version bytes.
proof fn lemma_write_prefix(e: EntityView, sv: int)
    ensures
        spec_write_with(e, sv).len() >= 5 + e.version.len(),
        spec_write_with(e, sv).subrange(0, 4) == magic_bytes(),
        spec_write_with(e, sv).subrange(4, 4 + e.version.len() as int) == chars_to_bytes(
            e.version,
        ),
{
    let s = spec_write_with(e, sv);
    assert(s.subrange(0, 4) =~= magic_bytes());
    assert(s.subrange(4, 4 + e.version.len() as int) =~= chars_to_bytes(e.version));
}

/// A container truncated inside its version string is rejected: with the
/// NUL terminator cut off, no partial entity can come back.
pub proof fn lemma_truncated_version_fails(e: EntityView, n: int)
    requires
        valid_entity(e),
        4 <= n < 4 + e.version.len(),
    ensures
        parse_entity(spec_write(e).take(n)) is None,
{
    let s = spec_write(e);
    let t = s.take(n);
    let vb = chars_to_bytes(e.version);
    lemma_write_prefix(e, spec_write_len(e));
    assert(t.subrange(0, 4) =~= s.subrange(0, 4));
    assert forall|j: int| 0 <= j < t.skip(4).len() implies t.skip(4)[j] != 0 by {
        assert(t.skip(4)[j] == s[j + 4]);
        assert(s[j + 4] == s.subrange(4, 4 + vb.len() as int)[j]);
        assert(wire_char(e.version[j]));
        assert(vb[j] == e.version[j] as u8);
    }
    crate::serialization::wire::lemma_split_nul_none(t.skip(4));
}

/// Reading a written container reproduces the entity exactly: its version,
/// its header (width, height, creation date and opaque attributes), every
/// path's color and vertex sequence, and every opaque chunk byte for byte.
#[verifier::rlimit(100)]
pub proof fn lemma_read_write_round_trip(e: EntityView)
    requires
        valid_entity(e),
    ensures
        parse_entity(spec_write(e)) == Option::Some(e),
{
    let total = spec_write_len(e);
    let s = spec_write(e);
    let vb = chars_to_bytes(e.version);
    let hp = enc_attrs(header_attr_list(e.header_chunk, total));
    let head = enc_chunk(head_code(), hp);
    let datas = enc_data_chunks(e.data_chunks);
    let others = enc_other_chunks(e.other_chunks);
    let fend = enc_chunk(fend_code(), Seq::empty());
    lemma_pow256_values();
    crate::serialization::wire::lemma_write_len_indep(e, 0, total);
    lemma_header_payload_len_indep(e.header_chunk, 0, total);
    lemma_be_bytes_len(8 + hp.len() as int, 4);
    lemma_be_bytes_len(8, 4);
    // The pieces and their bounds.
    assert(s == magic_bytes() + vb + seq![0u8] + head + datas + others + fend);
    assert(s.len() == total);
    assert(s.subrange(0, 4) =~= magic_bytes());
    // The version splits off at its NUL.
    assert forall|i: int| 0 <= i < vb.len() implies 0 < #[trigger] vb[i] < 128 by {
        assert(wire_char(e.version[i]));
        assert(vb[i] == e.version[i] as u8);
    }
    let after_version = head + datas + others + fend;
    assert(s.skip(4) =~= vb + seq![0u8] + after_version);
    let sv = s.skip(4);
    assert forall|j: int| 0 <= j < vb.len() implies sv[j] != 0 by {
        assert(sv[j] == vb[j]);
    }
    assert(sv[vb.len() as int] == 0);
    lemma_split_nul_found(sv, vb.len() as int);
    assert(sv.take(vb.len() as int) =~= vb);
    assert(sv.skip(vb.len() as int + 1) =~= after_version);
    assert(code_bytes_ok(vb));
    assert(bytes_to_chars(vb) =~= e.version);
    // The header chunk parses back to the header.
    assert(hp.len() + 8 <= total <= 0x7fffffff);
    assert forall|i: int| 0 <= i < 4 implies wire_char(#[trigger] head_code()[i]) by {}
    lemma_parse_chunk_of_enc(head_code(), hp, datas + others + fend);
    assert(head + datas + others + fend =~= enc_chunk(head_code(), hp) + (datas + others
        + fend));
    let hal = header_attr_list(e.header_chunk, total);
    assert forall|i: int| 0 <= i < hal.len() implies code_ok(#[trigger] hal[i].key) && 8 + (
    hal[i].val).len() < 0x100000000 by {
        lemma_enc_attrs_elem_bound(hal, i);
        lemma_be_bytes_len(8 + hal[i].val.len() as int, 4);
        if i == 0 {
            lemma_be_bytes_len(total, 8);
            assert(hal[i].key =~= size_key());
        } else if i == 1 {
            assert(hal[i].key =~= widt_key());
        } else if i == 2 {
            assert(hal[i].key =~= heig_key());
        } else {
            match e.header_chunk.creation_date {
                Option::Some(_) => {
                    if i == 3 {
                        assert(hal[i].key =~= date_key());
                    } else {
                        assert(hal[i] == e.header_chunk.other_attributes[i - 4]);
                        assert(valid_attr(e.header_chunk.other_attributes[i - 4]));
                    }
                },
                Option::None => {
                    assert(hal[i] == e.header_chunk.other_attributes[i - 3]);
                    assert(valid_attr(e.header_chunk.other_attributes[i - 3]));
                },
            }
        }
        assert(enc_attr(hal[i]).len() == 8 + hal[i].val.len()) by {
            lemma_be_bytes_len(8 + hal[i].val.len() as int, 4);
        }
    }
    lemma_parse_attrs_of_enc(hal);
    lemma_fold_of_header_list(e.header_chunk, total);
    assert(parse_header(hp) == Option::Some(e.header_chunk));
    // The remaining chunks parse back to the data and opaque chunks.
    assert forall|i: int, j: int|
        0 <= i < e.data_chunks.len() && 0 <= j < e.data_chunks[i].len() implies (
    #[trigger] enc_object(e.data_chunks[i][j])).len() < 0x100000000 by {
        lemma_enc_data_chunks_elem_bound(e.data_chunks, i);
        lemma_enc_objects_elem_bound(e.data_chunks[i], j);
        assert(enc_data_chunks(e.data_chunks).len() <= total);
    }
    assert forall|i: int|
        0 <= i < e.data_chunks.len() implies 8 + (#[trigger] enc_objects(
        e.data_chunks[i],
    )).len() < 0x100000000 by {
        lemma_enc_data_chunks_elem_bound(e.data_chunks, i);
        assert(enc_data_chunks(e.data_chunks).len() <= total);
    }
    assert forall|i: int|
        0 <= i < e.other_chunks.len() implies valid_chunk(#[trigger] e.other_chunks[i]) && 8 + (
    e.other_chunks[i].data).len() < 0x100000000 by {
        assert(valid_chunk(e.other_chunks[i]));
        assert forall|j: int|
            0 <= j < e.other_chunks.len() implies code_ok(#[trigger] e.other_chunks[j].code) by {
            assert(valid_chunk(e.other_chunks[j]));
        }
        lemma_enc_other_chunks_elem_bound(e.other_chunks, i);
        assert(enc_other_chunks(e.other_chunks).len() <= total);
    }
    lemma_parse_chunks_of_enc(e.data_chunks, e.other_chunks);
    assert(datas + others + fend =~= enc_data_chunks(e.data_chunks) + enc_other_chunks(
        e.other_chunks,
    ) + fend);
    // Assemble.
    assert(parse_entity(s) == Option::Some(
        (EntityView {
            version: bytes_to_chars(vb),
            header_chunk: e.header_chunk,
            data_chunks: e.data_chunks,
            other_chunks: e.other_chunks,
        }),
    ));
    assert((EntityView {
        version: bytes_to_chars(vb),
        header_chunk: e.header_chunk,
        data_chunks: e.data_chunks,
        other_chunks: e.other_chunks,
    }) == e);
}

} // verus!
