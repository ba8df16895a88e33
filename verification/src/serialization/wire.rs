//! The wire grammar of the container, stated over byte sequences: big-endian
//! integer fields, length-prefixed records, and the encoders the writer
//! produces.

use crate::entity::{AttrView, ChunkView, EntityView, HeaderView, ObjectView, PathView};
use vstd::prelude::*;
use vstd::arithmetic::div_mod::lemma_fundamental_div_mod;

verus! {

/// `256^n`: one more than the largest value an `n`-byte field can hold.
pub open spec fn pow256(n: nat) -> int
    decreases n,
{
    if n == 0 {
        1
    } else {
        256 * pow256((n - 1) as nat)
    }
}

pub proof fn lemma_pow256_positive(n: nat)
    ensures
        pow256(n) >= 1,
    decreases n,
{
    if n > 0 {
        lemma_pow256_positive((n - 1) as nat);
    }
}

pub proof fn lemma_pow256_values()
    ensures
        pow256(2) == 0x10000,
        pow256(4) == 0x100000000,
        pow256(8) == 0x10000000000000000,
{
    reveal_with_fuel(pow256, 9);
}

/// Big-endian bytes of `v`, `n` bytes wide; the most significant byte first.
pub open spec fn be_bytes(v: int, n: nat) -> Seq<u8>
    decreases n,
{
    if n == 0 {
        Seq::empty()
    } else {
        be_bytes(v / 256, (n - 1) as nat).push((v % 256) as u8)
    }
}

/// The integer a big-endian byte sequence denotes.
pub open spec fn from_be(s: Seq<u8>) -> int
    decreases s.len(),
{
    if s.len() == 0 {
        0
    } else {
        from_be(s.drop_last()) * 256 + s.last()
    }
}

pub proof fn lemma_be_bytes_len(v: int, n: nat)
    ensures
        be_bytes(v, n).len() == n,
    decreases n,
{
    if n > 0 {
        lemma_be_bytes_len(v / 256, (n - 1) as nat);
    }
}

/// Decoding inverts encoding for any value that fits in `n` bytes.
pub proof fn lemma_from_be_be_bytes(v: int, n: nat)
    requires
        0 <= v < pow256(n),
    ensures
        from_be(be_bytes(v, n)) == v,
    decreases n,
{
    if n > 0 {
        lemma_be_bytes_len(v / 256, (n - 1) as nat);
        let s = be_bytes(v, n);
        assert(s.drop_last() =~= be_bytes(v / 256, (n - 1) as nat));
        lemma_fundamental_div_mod(v, 256);
        assert(v / 256 < pow256((n - 1) as nat)) by {
            if v / 256 >= pow256((n - 1) as nat) {
                assert(v >= 256 * pow256((n - 1) as nat)) by (nonlinear_arith)
                    requires
                        v / 256 >= pow256((n - 1) as nat),
                        v == 256 * (v / 256) + v % 256,
                        v % 256 >= 0,
                ;
            }
        }
        assert(0 <= v / 256) by (nonlinear_arith)
            requires v >= 0,
        ;
        lemma_from_be_be_bytes(v / 256, (n - 1) as nat);
        assert(from_be(s) == (v / 256) * 256 + v % 256);
    }
}

/// Any decoded value lies within the range its width allows.
pub proof fn lemma_from_be_bounds(s: Seq<u8>)
    ensures
        0 <= from_be(s) < pow256(s.len()),
    decreases s.len(),
{
    if s.len() == 0 {
    } else {
        lemma_from_be_bounds(s.drop_last());
        assert(0 <= from_be(s.drop_last()) * 256 + s.last() < 256 * pow256((s.len() - 1) as nat))
            by (nonlinear_arith)
            requires
                0 <= from_be(s.drop_last()) <= pow256((s.len() - 1) as nat) - 1,
                0 <= s.last() < 256,
        ;
    }
}

/// Big-endian bytes of `v`, appended to a growing buffer.
pub fn push_be(out: &mut Vec<u8>, v: u64, n: usize)
    requires
        n <= 8,
        v < pow256(n as nat),
    ensures
        final(out)@ == old(out)@ + be_bytes(v as int, n as nat),
    decreases n,
{
    if n == 0 {
        assert(out@ =~= out@ + be_bytes(v as int, 0));
    } else {
        proof {
            lemma_pow256_positive((n - 1) as nat);
            assert(v / 256 < pow256((n - 1) as nat)) by (nonlinear_arith)
                requires
                    v < 256 * pow256((n - 1) as nat),
                    pow256((n - 1) as nat) >= 1,
            ;
        }
        push_be(out, v / 256, n - 1);
        out.push((v % 256) as u8);
        assert(out@ =~= old(out)@ + be_bytes(v as int, n as nat));
    }
}

/// Big-endian value of the `n` bytes of `data` starting at `pos`.
pub fn read_be(data: &Vec<u8>, pos: usize, n: usize) -> (r: u64)
    requires
        n <= 8,
        pos + n <= data@.len(),
    ensures
        r == from_be(data@.subrange(pos as int, pos + n)),
        r < pow256(n as nat),
{
    let len: usize = data.len();
    let mut acc: u64 = 0;
    let mut i: usize = 0;
    proof {
        assert(data@.subrange(pos as int, pos as int) =~= Seq::<u8>::empty());
    }
    while i < n
        invariant
            i <= n <= 8,
            len == data@.len(),
            pos + n <= len,
            acc == from_be(data@.subrange(pos as int, pos + i)),
            acc < pow256(i as nat),
        decreases n - i,
    {
        proof {
            let cur = data@.subrange(pos as int, pos + i + 1);
            assert(cur.drop_last() =~= data@.subrange(pos as int, pos + i));
            assert(acc * 256 + data@[pos + i] < 256 * pow256(i as nat)) by (nonlinear_arith)
                requires
                    0 <= acc <= pow256(i as nat) - 1,
                    0 <= data@[pos + i] < 256,
            ;
            lemma_pow256_increases((i + 1) as nat, 8);
            lemma_pow256_values();
        }
        acc = acc * 256 + data[pos + i] as u64;
        i = i + 1;
    }
    acc
}

pub proof fn lemma_pow256_increases(m: nat, n: nat)
    requires
        m <= n,
    ensures
        pow256(m) <= pow256(n),
    decreases n,
{
    if m < n {
        lemma_pow256_increases(m, (n - 1) as nat);
        lemma_pow256_positive((n - 1) as nat);
    }
}

// ---------------------------------------------------------------------------
// Codes and keys
// ---------------------------------------------------------------------------

/// The four magic bytes that open every container.
pub open spec fn magic_bytes() -> Seq<u8> {
    seq![0x0d, 0x53, 0x37, 0x0d]
}

pub open spec fn head_code() -> Seq<char> {
    seq!['H', 'E', 'A', 'D']
}

pub open spec fn data_code() -> Seq<char> {
    seq!['D', 'A', 'T', 'A']
}

pub open spec fn fend_code() -> Seq<char> {
    seq!['F', 'E', 'N', 'D']
}

pub open spec fn size_key() -> Seq<char> {
    seq!['S', 'I', 'Z', 'E']
}

pub open spec fn date_key() -> Seq<char> {
    seq!['D', 'A', 'T', 'E']
}

pub open spec fn widt_key() -> Seq<char> {
    seq!['W', 'I', 'D', 'T']
}

pub open spec fn heig_key() -> Seq<char> {
    seq!['H', 'E', 'I', 'G']
}

/// The byte type code of a path object: ASCII `P`.
pub open spec fn path_type_byte() -> u8 {
    0x50
}

pub open spec fn chars_to_bytes(s: Seq<char>) -> Seq<u8> {
    s.map_values(|c: char| c as u8)
}

pub open spec fn bytes_to_chars(s: Seq<u8>) -> Seq<char> {
    s.map_values(|b: u8| b as char)
}

/// A character the wire may carry in a code, key or version: ASCII, not NUL.
pub open spec fn wire_char(c: char) -> bool {
    '\0' < c && c <= '\u{7f}'
}

/// A chunk code or attribute key: four ASCII characters, none of them NUL.
pub open spec fn code_ok(s: Seq<char>) -> bool {
    s.len() == 4 && (forall|i: int| 0 <= i < s.len() ==> wire_char(#[trigger] s[i]))
}

/// The bytes a code or key may use on the wire.
pub open spec fn code_bytes_ok(s: Seq<u8>) -> bool {
    forall|i: int| 0 <= i < s.len() ==> 0 < #[trigger] s[i] < 128
}

// ---------------------------------------------------------------------------
// Encoding
// ---------------------------------------------------------------------------

/// One header attribute record: size, key, value.
pub open spec fn enc_attr(a: AttrView) -> Seq<u8> {
    be_bytes(8 + a.val.len() as int, 4) + chars_to_bytes(a.key) + a.val
}

pub open spec fn enc_attrs(l: Seq<AttrView>) -> Seq<u8>
    decreases l.len(),
{
    if l.len() == 0 {
        Seq::empty()
    } else {
        enc_attr(l[0]) + enc_attrs(l.drop_first())
    }
}

pub open spec fn enc_point(p: (u16, u16)) -> Seq<u8> {
    be_bytes(p.0 as int, 2) + be_bytes(p.1 as int, 2)
}

pub open spec fn enc_points(ps: Seq<(u16, u16)>) -> Seq<u8>
    decreases ps.len(),
{
    if ps.len() == 0 {
        Seq::empty()
    } else {
        enc_point(ps[0]) + enc_points(ps.drop_first())
    }
}

/// One path record: size, type byte, color, vertices.
pub open spec fn enc_path(p: PathView) -> Seq<u8> {
    be_bytes(8 + 4 * p.points.len() as int, 4) + seq![path_type_byte()]
        + seq![p.color.0, p.color.1, p.color.2] + enc_points(p.points)
}

pub open spec fn enc_object(o: ObjectView) -> Seq<u8> {
    match o {
        ObjectView::Path(p) => enc_path(p),
    }
}

pub open spec fn enc_objects(os: Seq<ObjectView>) -> Seq<u8>
    decreases os.len(),
{
    if os.len() == 0 {
        Seq::empty()
    } else {
        enc_object(os[0]) + enc_objects(os.drop_first())
    }
}

/// One top-level chunk: size, code, payload.
pub open spec fn enc_chunk(code: Seq<char>, payload: Seq<u8>) -> Seq<u8> {
    be_bytes(8 + payload.len() as int, 4) + chars_to_bytes(code) + payload
}

pub open spec fn enc_data_chunks(ds: Seq<Seq<ObjectView>>) -> Seq<u8>
    decreases ds.len(),
{
    if ds.len() == 0 {
        Seq::empty()
    } else {
        enc_chunk(data_code(), enc_objects(ds[0])) + enc_data_chunks(ds.drop_first())
    }
}

pub open spec fn enc_other_chunks(cs: Seq<ChunkView>) -> Seq<u8>
    decreases cs.len(),
{
    if cs.len() == 0 {
        Seq::empty()
    } else {
        enc_chunk(cs[0].code, cs[0].data) + enc_other_chunks(cs.drop_first())
    }
}

pub open spec fn size_attr(v: int) -> AttrView {
    AttrView { key: size_key(), val: be_bytes(v, 8) }
}

/// The header attributes as written: the file-size placeholder first, then
/// width, height, the optional creation date, and the opaque attributes.
pub open spec fn header_attr_list(h: HeaderView, size_val: int) -> Seq<AttrView> {
    seq![
        size_attr(size_val),
        AttrView { key: widt_key(), val: be_bytes(h.width as int, 2) },
        AttrView { key: heig_key(), val: be_bytes(h.height as int, 2) },
    ] + match h.creation_date {
        Option::None => Seq::empty(),
        Option::Some(d) => seq![AttrView { key: date_key(), val: be_bytes(d as int, 8) }],
    } + h.other_attributes
}

/// The whole container, with `size_val` standing in the size field.
pub open spec fn spec_write_with(e: EntityView, size_val: int) -> Seq<u8> {
    magic_bytes() + chars_to_bytes(e.version) + seq![0u8]
        + enc_chunk(head_code(), enc_attrs(header_attr_list(e.header_chunk, size_val)))
        + enc_data_chunks(e.data_chunks) + enc_other_chunks(e.other_chunks)
        + enc_chunk(fend_code(), Seq::empty())
}

pub open spec fn spec_write_len(e: EntityView) -> int {
    spec_write_with(e, 0).len() as int
}

/// The container the writer produces: the size attribute carries the total
/// length of the container itself.
pub open spec fn spec_write(e: EntityView) -> Seq<u8> {
    spec_write_with(e, spec_write_len(e))
}

// ---------------------------------------------------------------------------
// Validity: what the writer accepts
// ---------------------------------------------------------------------------

/// A recognized header key, regenerated by the writer rather than kept
/// among the opaque attributes.
pub open spec fn recognized_key(k: Seq<char>) -> bool {
    k == size_key() || k == date_key() || k == widt_key() || k == heig_key()
}

pub open spec fn valid_attr(a: AttrView) -> bool {
    code_ok(a.key) && !recognized_key(a.key)
}

pub open spec fn valid_chunk(c: ChunkView) -> bool {
    code_ok(c.code) && c.code != head_code() && c.code != data_code() && c.code != fend_code()
}

pub open spec fn valid_object(o: ObjectView) -> bool {
    match o {
        ObjectView::Path(p) => p.points.len() >= 1,
    }
}

/// The data model invariants plus the machine limits of the wire format:
/// ASCII codes, non-empty paths, and a total size whose length fields all
/// fit their four bytes.
pub open spec fn valid_entity(e: EntityView) -> bool {
    &&& forall|i: int| 0 <= i < e.version.len() ==> wire_char(#[trigger] e.version[i])
    &&& forall|i: int|
        0 <= i < e.header_chunk.other_attributes.len()
            ==> valid_attr(#[trigger] e.header_chunk.other_attributes[i])
    &&& forall|i: int, j: int|
        0 <= i < e.data_chunks.len() && 0 <= j < e.data_chunks[i].len()
            ==> valid_object(#[trigger] e.data_chunks[i][j])
    &&& forall|i: int| 0 <= i < e.other_chunks.len() ==> valid_chunk(#[trigger] e.other_chunks[i])
    &&& spec_write_len(e) <= 0x7fffffff
}

// ---------------------------------------------------------------------------
// Parsing
// ---------------------------------------------------------------------------

/// Splits the version string off at its NUL terminator.
pub open spec fn split_nul(s: Seq<u8>) -> Option<(Seq<u8>, Seq<u8>)>
    decreases s.len(),
{
    if s.len() == 0 {
        Option::None
    } else if s[0] == 0 {
        Option::Some((Seq::empty(), s.drop_first()))
    } else {
        match split_nul(s.drop_first()) {
            Option::None => Option::None,
            Option::Some((v, r)) => Option::Some((seq![s[0]] + v, r)),
        }
    }
}

/// Where the first NUL sits, `split_nul` cuts exactly there.
pub proof fn lemma_split_nul_found(s: Seq<u8>, k: int)
    requires
        0 <= k < s.len(),
        s[k] == 0,
        forall|j: int| 0 <= j < k ==> s[j] != 0,
    ensures
        split_nul(s) == Option::Some((s.take(k), s.skip(k + 1))),
    decreases k,
{
    if k == 0 {
        assert(s.take(0) =~= Seq::<u8>::empty());
    } else {
        let d = s.drop_first();
        lemma_split_nul_found(d, k - 1);
        assert(d.take(k - 1) =~= s.take(k).drop_first());
        assert(d.skip(k) =~= s.skip(k + 1));
        assert(seq![s[0]] + s.take(k).drop_first() =~= s.take(k));
    }
}

/// Without a NUL, `split_nul` fails.
pub proof fn lemma_split_nul_none(s: Seq<u8>)
    requires
        forall|j: int| 0 <= j < s.len() ==> s[j] != 0,
    ensures
        split_nul(s) is None,
    decreases s.len(),
{
    if s.len() > 0 {
        lemma_split_nul_none(s.drop_first());
    }
}

/// A byte below 128 and an ASCII character agree exactly when the byte is
/// the character's code.
pub proof fn lemma_byte_char_eq(b: u8, c: char)
    requires
        (c as u32) < 128,
    ensures
        (b as char == c) <==> (b == c as u8),
{
}

/// One attribute record off the front of `s`: `(attribute, rest)`.
pub open spec fn parse_attr(s: Seq<u8>) -> Option<(AttrView, Seq<u8>)> {
    if s.len() < 8 {
        Option::None
    } else {
        let size = from_be(s.subrange(0, 4));
        if size < 8 || size > s.len() {
            Option::None
        } else if !code_bytes_ok(s.subrange(4, 8)) {
            Option::None
        } else {
            Option::Some(
                (
                    AttrView { key: bytes_to_chars(s.subrange(4, 8)), val: s.subrange(8, size) },
                    s.skip(size),
                ),
            )
        }
    }
}

/// Every attribute record in `s`, which they must fill exactly.
pub open spec fn parse_attrs(s: Seq<u8>) -> Option<Seq<AttrView>>
    decreases s.len(),
{
    if s.len() == 0 {
        Option::Some(Seq::empty())
    } else {
        match parse_attr(s) {
            Option::None => Option::None,
            Option::Some((a, rest)) => match parse_attrs(rest) {
                Option::None => Option::None,
                Option::Some(l) => Option::Some(seq![a] + l),
            },
        }
    }
}

/// Folds one attribute into the header: recognized keys fill the typed
/// fields (a later duplicate wins), the size placeholder is dropped,
/// anything else is kept opaque in order.
pub open spec fn fold_one(a: AttrView, acc: HeaderView) -> Option<HeaderView> {
    if a.key == size_key() {
        Option::Some(acc)
    } else if a.key == date_key() {
        if a.val.len() < 8 {
            Option::None
        } else {
            Option::Some(
                HeaderView { creation_date: Option::Some(from_be(a.val.take(8)) as u64), ..acc },
            )
        }
    } else if a.key == widt_key() {
        if a.val.len() < 2 {
            Option::None
        } else {
            Option::Some(HeaderView { width: from_be(a.val.take(2)) as u16, ..acc })
        }
    } else if a.key == heig_key() {
        if a.val.len() < 2 {
            Option::None
        } else {
            Option::Some(HeaderView { height: from_be(a.val.take(2)) as u16, ..acc })
        }
    } else {
        Option::Some(HeaderView { other_attributes: acc.other_attributes.push(a), ..acc })
    }
}

/// Folds the attribute list into the header, left to right.
pub open spec fn fold_header_attrs(attrs: Seq<AttrView>, acc: HeaderView) -> Option<HeaderView>
    decreases attrs.len(),
{
    if attrs.len() == 0 {
        Option::Some(acc)
    } else {
        match fold_one(attrs[0], acc) {
            Option::None => Option::None,
            Option::Some(acc2) => fold_header_attrs(attrs.drop_first(), acc2),
        }
    }
}

pub open spec fn empty_header() -> HeaderView {
    HeaderView {
        creation_date: Option::None,
        width: 0,
        height: 0,
        other_attributes: Seq::empty(),
    }
}

/// The header a HEAD payload denotes.
pub open spec fn parse_header(s: Seq<u8>) -> Option<HeaderView> {
    match parse_attrs(s) {
        Option::None => Option::None,
        Option::Some(attrs) => fold_header_attrs(attrs, empty_header()),
    }
}

/// Vertex pairs filling `s` exactly.
pub open spec fn parse_points(s: Seq<u8>) -> Option<Seq<(u16, u16)>>
    decreases s.len(),
{
    if s.len() == 0 {
        Option::Some(Seq::empty())
    } else if s.len() < 4 {
        Option::None
    } else {
        let p = (from_be(s.subrange(0, 2)) as u16, from_be(s.subrange(2, 4)) as u16);
        match parse_points(s.skip(4)) {
            Option::None => Option::None,
            Option::Some(ps) => Option::Some(seq![p] + ps),
        }
    }
}

/// One object record off the front of `s`: `(object, rest)`.
pub open spec fn parse_object(s: Seq<u8>) -> Option<(ObjectView, Seq<u8>)> {
    if s.len() < 8 {
        Option::None
    } else {
        let size = from_be(s.subrange(0, 4));
        if size < 8 || size > s.len() {
            Option::None
        } else if s[4] != path_type_byte() {
            Option::None
        } else {
            match parse_points(s.subrange(8, size)) {
                Option::None => Option::None,
                Option::Some(ps) => Option::Some(
                    (
                        ObjectView::Path(
                            PathView { color: (s[5], s[6], s[7]), points: ps },
                        ),
                        s.skip(size),
                    ),
                ),
            }
        }
    }
}

/// Every object record in `s`, which they must fill exactly.
pub open spec fn parse_objects(s: Seq<u8>) -> Option<Seq<ObjectView>>
    decreases s.len(),
{
    if s.len() == 0 {
        Option::Some(Seq::empty())
    } else {
        match parse_object(s) {
            Option::None => Option::None,
            Option::Some((o, rest)) => match parse_objects(rest) {
                Option::None => Option::None,
                Option::Some(l) => Option::Some(seq![o] + l),
            },
        }
    }
}

/// One chunk off the front of `s`: `(code, payload, rest)`.
pub open spec fn parse_chunk(s: Seq<u8>) -> Option<(Seq<char>, Seq<u8>, Seq<u8>)> {
    if s.len() < 8 {
        Option::None
    } else {
        let size = from_be(s.subrange(0, 4));
        if size < 8 || size > s.len() {
            Option::None
        } else if !code_bytes_ok(s.subrange(4, 8)) {
            Option::None
        } else {
            Option::Some(
                (bytes_to_chars(s.subrange(4, 8)), s.subrange(8, size), s.skip(size)),
            )
        }
    }
}

/// The chunks after the header: data chunks in order, opaque chunks in
/// order, stopping at a FEND chunk or at the end of input.
pub open spec fn parse_chunks(s: Seq<u8>) -> Option<(Seq<Seq<ObjectView>>, Seq<ChunkView>)>
    decreases s.len(),
{
    if s.len() == 0 {
        Option::Some((Seq::empty(), Seq::empty()))
    } else {
        match parse_chunk(s) {
            Option::None => Option::None,
            Option::Some((code, payload, rest)) => if code == fend_code() {
                Option::Some((Seq::empty(), Seq::empty()))
            } else if code == data_code() {
                match parse_objects(payload) {
                    Option::None => Option::None,
                    Option::Some(objs) => match parse_chunks(rest) {
                        Option::None => Option::None,
                        Option::Some((ds, os)) => Option::Some((seq![objs] + ds, os)),
                    },
                }
            } else {
                match parse_chunks(rest) {
                    Option::None => Option::None,
                    Option::Some((ds, os)) => Option::Some(
                        (ds, seq![ChunkView { code: code, data: payload }] + os),
                    ),
                }
            },
        }
    }
}

/// The entity a whole container denotes, if it is well-formed: magic,
/// NUL-terminated ASCII version, a HEAD chunk, then the remaining chunks.
pub open spec fn parse_entity(s: Seq<u8>) -> Option<EntityView> {
    if s.len() < 4 || s.subrange(0, 4) != magic_bytes() {
        Option::None
    } else {
        match split_nul(s.skip(4)) {
            Option::None => Option::None,
            Option::Some((vb, rest)) => if !code_bytes_ok(vb) {
                Option::None
            } else {
                match parse_chunk(rest) {
                    Option::None => Option::None,
                    Option::Some((code, payload, rest2)) => if code != head_code() {
                        Option::None
                    } else {
                        match parse_header(payload) {
                            Option::None => Option::None,
                            Option::Some(h) => match parse_chunks(rest2) {
                                Option::None => Option::None,
                                Option::Some((ds, os)) => Option::Some(
                                    EntityView {
                                        version: bytes_to_chars(vb),
                                        header_chunk: h,
                                        data_chunks: ds,
                                        other_chunks: os,
                                    },
                                ),
                            },
                        }
                    },
                }
            },
        }
    }
}

// ---------------------------------------------------------------------------
// Structural lemmas about the encoders
// ---------------------------------------------------------------------------

/// Encoding a concatenation of attribute lists concatenates the encodings.
pub proof fn lemma_enc_attrs_concat(a: Seq<AttrView>, b: Seq<AttrView>)
    ensures
        enc_attrs(a + b) == enc_attrs(a) + enc_attrs(b),
    decreases a.len(),
{
    if a.len() == 0 {
        assert(a + b =~= b);
        assert(enc_attrs(a) + enc_attrs(b) =~= enc_attrs(b));
    } else {
        assert((a + b).drop_first() =~= a.drop_first() + b);
        lemma_enc_attrs_concat(a.drop_first(), b);
        assert(enc_attr(a[0]) + (enc_attrs(a.drop_first()) + enc_attrs(b)) =~= (enc_attr(a[0])
            + enc_attrs(a.drop_first())) + enc_attrs(b));
    }
}

pub proof fn lemma_enc_points_concat(a: Seq<(u16, u16)>, b: Seq<(u16, u16)>)
    ensures
        enc_points(a + b) == enc_points(a) + enc_points(b),
    decreases a.len(),
{
    if a.len() == 0 {
        assert(a + b =~= b);
        assert(enc_points(a) + enc_points(b) =~= enc_points(b));
    } else {
        assert((a + b).drop_first() =~= a.drop_first() + b);
        lemma_enc_points_concat(a.drop_first(), b);
        assert(enc_point(a[0]) + (enc_points(a.drop_first()) + enc_points(b)) =~= (enc_point(a[0])
            + enc_points(a.drop_first())) + enc_points(b));
    }
}

pub proof fn lemma_enc_objects_concat(a: Seq<ObjectView>, b: Seq<ObjectView>)
    ensures
        enc_objects(a + b) == enc_objects(a) + enc_objects(b),
    decreases a.len(),
{
    if a.len() == 0 {
        assert(a + b =~= b);
        assert(enc_objects(a) + enc_objects(b) =~= enc_objects(b));
    } else {
        assert((a + b).drop_first() =~= a.drop_first() + b);
        lemma_enc_objects_concat(a.drop_first(), b);
        assert(enc_object(a[0]) + (enc_objects(a.drop_first()) + enc_objects(b)) =~= (enc_object(
            a[0],
        ) + enc_objects(a.drop_first())) + enc_objects(b));
    }
}

pub proof fn lemma_enc_data_chunks_concat(a: Seq<Seq<ObjectView>>, b: Seq<Seq<ObjectView>>)
    ensures
        enc_data_chunks(a + b) == enc_data_chunks(a) + enc_data_chunks(b),
    decreases a.len(),
{
    if a.len() == 0 {
        assert(a + b =~= b);
        assert(enc_data_chunks(a) + enc_data_chunks(b) =~= enc_data_chunks(b));
    } else {
        assert((a + b).drop_first() =~= a.drop_first() + b);
        lemma_enc_data_chunks_concat(a.drop_first(), b);
        let c = enc_chunk(data_code(), enc_objects(a[0]));
        assert(c + (enc_data_chunks(a.drop_first()) + enc_data_chunks(b)) =~= (c
            + enc_data_chunks(a.drop_first())) + enc_data_chunks(b));
    }
}

pub proof fn lemma_enc_other_chunks_concat(a: Seq<ChunkView>, b: Seq<ChunkView>)
    ensures
        enc_other_chunks(a + b) == enc_other_chunks(a) + enc_other_chunks(b),
    decreases a.len(),
{
    if a.len() == 0 {
        assert(a + b =~= b);
        assert(enc_other_chunks(a) + enc_other_chunks(b) =~= enc_other_chunks(b));
    } else {
        assert((a + b).drop_first() =~= a.drop_first() + b);
        lemma_enc_other_chunks_concat(a.drop_first(), b);
        let c = enc_chunk(a[0].code, a[0].data);
        assert(c + (enc_other_chunks(a.drop_first()) + enc_other_chunks(b)) =~= (c
            + enc_other_chunks(a.drop_first())) + enc_other_chunks(b));
    }
}

pub proof fn lemma_enc_attrs_push(l: Seq<AttrView>, a: AttrView)
    ensures
        enc_attrs(l.push(a)) == enc_attrs(l) + enc_attr(a),
{
    assert(l.push(a) =~= l + seq![a]);
    lemma_enc_attrs_concat(l, seq![a]);
    assert(seq![a].drop_first() =~= Seq::<AttrView>::empty());
    assert(enc_attrs(Seq::<AttrView>::empty()) == Seq::<u8>::empty());
    assert(enc_attrs(seq![a]) == enc_attr(a) + Seq::<u8>::empty());
    assert(enc_attrs(l) + (enc_attr(a) + Seq::<u8>::empty()) =~= enc_attrs(l) + enc_attr(a));
}

pub proof fn lemma_enc_points_push(l: Seq<(u16, u16)>, p: (u16, u16))
    ensures
        enc_points(l.push(p)) == enc_points(l) + enc_point(p),
{
    assert(l.push(p) =~= l + seq![p]);
    lemma_enc_points_concat(l, seq![p]);
    assert(seq![p].drop_first() =~= Seq::<(u16, u16)>::empty());
    assert(enc_points(Seq::<(u16, u16)>::empty()) == Seq::<u8>::empty());
    assert(enc_points(seq![p]) == enc_point(p) + Seq::<u8>::empty());
    assert(enc_points(l) + (enc_point(p) + Seq::<u8>::empty()) =~= enc_points(l) + enc_point(p));
}

pub proof fn lemma_enc_objects_push(l: Seq<ObjectView>, o: ObjectView)
    ensures
        enc_objects(l.push(o)) == enc_objects(l) + enc_object(o),
{
    assert(l.push(o) =~= l + seq![o]);
    lemma_enc_objects_concat(l, seq![o]);
    assert(seq![o].drop_first() =~= Seq::<ObjectView>::empty());
    assert(enc_objects(Seq::<ObjectView>::empty()) == Seq::<u8>::empty());
    assert(enc_objects(seq![o]) == enc_object(o) + Seq::<u8>::empty());
    assert(enc_objects(l) + (enc_object(o) + Seq::<u8>::empty()) =~= enc_objects(l) + enc_object(o));
}

pub proof fn lemma_enc_data_chunks_push(l: Seq<Seq<ObjectView>>, d: Seq<ObjectView>)
    ensures
        enc_data_chunks(l.push(d)) == enc_data_chunks(l) + enc_chunk(data_code(), enc_objects(d)),
{
    assert(l.push(d) =~= l + seq![d]);
    lemma_enc_data_chunks_concat(l, seq![d]);
    assert(seq![d].drop_first() =~= Seq::<Seq<ObjectView>>::empty());
    let c = enc_chunk(data_code(), enc_objects(d));
    assert(enc_data_chunks(Seq::<Seq<ObjectView>>::empty()) == Seq::<u8>::empty());
    assert(enc_data_chunks(seq![d]) == c + Seq::<u8>::empty());
    assert(enc_data_chunks(l) + (c + Seq::<u8>::empty()) =~= enc_data_chunks(l) + c);
}

pub proof fn lemma_enc_other_chunks_push(l: Seq<ChunkView>, c: ChunkView)
    ensures
        enc_other_chunks(l.push(c)) == enc_other_chunks(l) + enc_chunk(c.code, c.data),
{
    assert(l.push(c) =~= l + seq![c]);
    lemma_enc_other_chunks_concat(l, seq![c]);
    assert(seq![c].drop_first() =~= Seq::<ChunkView>::empty());
    let e = enc_chunk(c.code, c.data);
    assert(enc_other_chunks(Seq::<ChunkView>::empty()) == Seq::<u8>::empty());
    assert(enc_other_chunks(seq![c]) == e + Seq::<u8>::empty());
    assert(enc_other_chunks(l) + (e + Seq::<u8>::empty()) =~= enc_other_chunks(l) + e);
}

/// The length of an encoded vertex list.
pub proof fn lemma_enc_points_len(ps: Seq<(u16, u16)>)
    ensures
        enc_points(ps).len() == 4 * ps.len(),
    decreases ps.len(),
{
    if ps.len() > 0 {
        lemma_be_bytes_len(ps[0].0 as int, 2);
        lemma_be_bytes_len(ps[0].1 as int, 2);
        lemma_enc_points_len(ps.drop_first());
    }
}

/// Each attribute's record is no longer than the whole encoded list.
pub proof fn lemma_enc_attrs_elem_bound(l: Seq<AttrView>, i: int)
    requires
        0 <= i < l.len(),
    ensures
        enc_attr(l[i]).len() <= enc_attrs(l).len(),
    decreases i,
{
    if i > 0 {
        lemma_enc_attrs_elem_bound(l.drop_first(), i - 1);
    }
}

/// Each object's record is no longer than the whole encoded list.
pub proof fn lemma_enc_objects_elem_bound(l: Seq<ObjectView>, i: int)
    requires
        0 <= i < l.len(),
    ensures
        enc_object(l[i]).len() <= enc_objects(l).len(),
    decreases i,
{
    if i > 0 {
        lemma_enc_objects_elem_bound(l.drop_first(), i - 1);
    }
}

/// Each data chunk's record is no longer than the whole encoded list.
pub proof fn lemma_enc_data_chunks_elem_bound(l: Seq<Seq<ObjectView>>, i: int)
    requires
        0 <= i < l.len(),
    ensures
        enc_objects(l[i]).len() + 8 <= enc_data_chunks(l).len(),
    decreases i,
{
    lemma_be_bytes_len(8 + enc_objects(l[i]).len() as int, 4);
    if i > 0 {
        lemma_enc_data_chunks_elem_bound(l.drop_first(), i - 1);
    }
}

/// Each opaque chunk's record is no longer than the whole encoded list.
pub proof fn lemma_enc_other_chunks_elem_bound(l: Seq<ChunkView>, i: int)
    requires
        0 <= i < l.len(),
        forall|j: int| 0 <= j < l.len() ==> code_ok(#[trigger] l[j].code),
    ensures
        l[i].data.len() + 8 <= enc_other_chunks(l).len(),
    decreases i,
{
    lemma_be_bytes_len(8 + l[i].data.len() as int, 4);
    if i > 0 {
        lemma_enc_other_chunks_elem_bound(l.drop_first(), i - 1);
    }
}

/// The length of the encoded header payload does not depend on the value
/// written into the size placeholder.
pub proof fn lemma_header_payload_len_indep(h: HeaderView, a: int, b: int)
    ensures
        enc_attrs(header_attr_list(h, a)).len() == enc_attrs(header_attr_list(h, b)).len(),
{
    let la = header_attr_list(h, a);
    let lb = header_attr_list(h, b);
    lemma_be_bytes_len(a, 8);
    lemma_be_bytes_len(b, 8);
    assert(la.drop_first() =~= lb.drop_first());
    assert(enc_attrs(la) == enc_attr(la[0]) + enc_attrs(la.drop_first()));
    assert(enc_attrs(lb) == enc_attr(lb[0]) + enc_attrs(lb.drop_first()));
    lemma_be_bytes_len(8 + la[0].val.len() as int, 4);
    lemma_be_bytes_len(8 + lb[0].val.len() as int, 4);
}

/// The length of the container does not depend on the value written into
/// the size placeholder.
pub proof fn lemma_write_len_indep(e: EntityView, a: int, b: int)
    ensures
        spec_write_with(e, a).len() == spec_write_with(e, b).len(),
{
    lemma_header_payload_len_indep(e.header_chunk, a, b);
    let pa = enc_attrs(header_attr_list(e.header_chunk, a));
    let pb = enc_attrs(header_attr_list(e.header_chunk, b));
    lemma_be_bytes_len(8 + pa.len() as int, 4);
    lemma_be_bytes_len(8 + pb.len() as int, 4);
}

} // verus!
