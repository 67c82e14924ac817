//! The wire format of the syntax tree: a binary, protobuf-style encoding of
//! an envelope message with one optional `root` field, where a tree node is
//! a message with a `node_type` string field, a `name` string field and a
//! repeated `children` field of nested node messages. String fields hold the
//! UTF-8 bytes of their text; every field is length-delimited; a field whose
//! value is empty is omitted and decodes to the empty value.

use vstd::prelude::*;
use vstd::utf8::{decode_utf8, encode_utf8, valid_utf8};
use crate::ast::{AstNode, AstView, ast_views, lemma_ast_views};

verus! {

/// The key byte of the `node_type` field: field number 1, wire type 2.
pub const KEY_KIND: u8 = 10;

/// The key byte of the `name` field: field number 2, wire type 2.
pub const KEY_NAME: u8 = 18;

/// The key byte of one `children` element: field number 3, wire type 2.
pub const KEY_CHILD: u8 = 26;

/// The base-128 varint encoding of `n`, least significant group first.
pub open spec fn enc_varint(n: nat) -> Seq<u8>
    decreases n,
{
    if n < 128 {
        seq![n as u8]
    } else {
        seq![(n % 128 + 128) as u8] + enc_varint(n / 128)
    }
}

/// The value and byte count of the varint at the front of `b`, if any.
pub open spec fn dec_varint(b: Seq<u8>) -> Option<(nat, int)>
    decreases b.len(),
{
    if b.len() == 0 {
        None
    } else if b[0] < 128 {
        Some((b[0] as nat, 1))
    } else {
        match dec_varint(b.skip(1)) {
            None => None,
            Some((v, c)) => Some(((b[0] - 128) as nat + 128 * v, c + 1)),
        }
    }
}

/// A varint takes at least one byte.
pub proof fn lemma_enc_varint_len(n: nat)
    ensures
        enc_varint(n).len() >= 1,
{
}

/// Law piece: a varint decodes back to the number it encodes, whatever
/// follows it.
pub proof fn lemma_varint_round_trip(n: nat, rest: Seq<u8>)
    ensures
        dec_varint(enc_varint(n) + rest) == Some((n, enc_varint(n).len() as int)),
    decreases n,
{
    let e = enc_varint(n);
    let b = e + rest;
    if n < 128 {
        assert(b[0] == n as u8);
    } else {
        lemma_varint_round_trip(n / 128, rest);
        assert(b[0] == (n % 128 + 128) as u8);
        assert(b[0] >= 128);
        assert(b.skip(1) =~= enc_varint(n / 128) + rest);
        vstd::arithmetic::div_mod::lemma_fundamental_div_mod(n as int, 128);
        assert((b[0] - 128) as nat + 128 * (n / 128) == n);
    }
}

/// The encoding of one length-delimited string field, omitted when the
/// string is empty.
pub open spec fn enc_str_field(key: u8, s: Seq<char>) -> Seq<u8> {
    if s.len() == 0 {
        Seq::empty()
    } else {
        seq![key] + enc_varint(encode_utf8(s).len()) + encode_utf8(s)
    }
}

/// The encoding of one tree node: its two string fields, then one nested,
/// length-delimited message per child, in order.
pub open spec fn enc_node(t: AstView) -> Seq<u8>
    decreases t, 1int,
{
    enc_str_field(KEY_KIND, t.kind) + enc_str_field(KEY_NAME, t.name) + enc_children(
        t.children,
        t.children.len() as int,
    )
}

/// The encodings of the first `i` children, concatenated in order.
pub open spec fn enc_children(s: Seq<AstView>, i: int) -> Seq<u8>
    decreases s, i,
{
    if i <= 0 || i > s.len() {
        Seq::empty()
    } else {
        enc_children(s, i - 1) + seq![KEY_CHILD] + enc_varint(enc_node(s[i - 1]).len())
            + enc_node(s[i - 1])
    }
}

/// The encoding of the envelope: one `root` field holding the tree.
pub open spec fn enc_ast(t: AstView) -> Seq<u8> {
    seq![KEY_KIND] + enc_varint(enc_node(t).len()) + enc_node(t)
}

/// The node denoted by the message bytes `b`: fields folded left to right
/// into `acc`, a later scalar field overwriting an earlier one, children
/// accumulating in order. Unknown keys, truncated fields and invalid UTF-8
/// yield nothing.
pub open spec fn dec_fields(b: Seq<u8>, acc: AstView) -> Option<AstView>
    decreases b.len(), 0int,
{
    if b.len() == 0 {
        Some(acc)
    } else {
        let key = b[0];
        if key != KEY_KIND && key != KEY_NAME && key != KEY_CHILD {
            None
        } else {
            match dec_varint(b.skip(1)) {
                None => None,
                Some((len, c)) => {
                    if c < 1 || 1 + c + len > b.len() {
                        None
                    } else {
                        let payload = b.subrange(1 + c, 1 + c + len);
                        let rest = b.skip(1 + c + len);
                        if key == KEY_KIND {
                            if valid_utf8(payload) {
                                dec_fields(rest, AstView { kind: decode_utf8(payload), ..acc })
                            } else {
                                None
                            }
                        } else if key == KEY_NAME {
                            if valid_utf8(payload) {
                                dec_fields(rest, AstView { name: decode_utf8(payload), ..acc })
                            } else {
                                None
                            }
                        } else {
                            match dec_node(payload) {
                                None => None,
                                Some(child) => dec_fields(
                                    rest,
                                    AstView { children: acc.children.push(child), ..acc },
                                ),
                            }
                        }
                    }
                },
            }
        }
    }
}

/// The empty node: what a message without fields decodes to.
pub open spec fn empty_node() -> AstView {
    AstView { kind: Seq::empty(), name: Seq::empty(), children: Seq::empty() }
}

/// The tree denoted by the message bytes `b`, if any.
pub open spec fn dec_node(b: Seq<u8>) -> Option<AstView>
    decreases b.len(), 1int,
{
    dec_fields(b, empty_node())
}

/// The tree denoted by an encoded envelope: one `root` field that spans the
/// rest of the input exactly; anything else yields nothing.
pub open spec fn dec_ast(b: Seq<u8>) -> Option<AstView> {
    if b.len() == 0 || b[0] != KEY_KIND {
        None
    } else {
        match dec_varint(b.skip(1)) {
            None => None,
            Some((len, c)) => {
                if c < 1 || 1 + c + len != b.len() {
                    None
                } else {
                    dec_node(b.subrange(1 + c, b.len() as int))
                }
            },
        }
    }
}

/// Decoding steps over one encoded string field and updates the field it
/// names, leaving the rest of the input to decode.
proof fn lemma_dec_str_field(key: u8, s: Seq<char>, rest: Seq<u8>, acc: AstView)
    requires
        s.len() > 0,
        key == KEY_KIND || key == KEY_NAME,
    ensures
        dec_fields(enc_str_field(key, s) + rest, acc) == dec_fields(
            rest,
            if key == KEY_KIND {
                AstView { kind: s, ..acc }
            } else {
                AstView { name: s, ..acc }
            },
        ),
{
    let u = encode_utf8(s);
    let e = enc_str_field(key, s);
    let b = e + rest;
    let c = enc_varint(u.len()).len() as int;
    lemma_varint_round_trip(u.len(), u + rest);
    assert(b.skip(1) =~= enc_varint(u.len()) + (u + rest));
    assert(b[0] == key);
    lemma_enc_varint_len(u.len());
    assert(b.len() == 1 + c + u.len() + rest.len());
    assert(dec_varint(b.skip(1)) == Some((u.len(), c)));
    assert(b.subrange(1 + c, 1 + c + u.len() as int) =~= u);
    assert(b.skip(1 + c + u.len() as int) =~= rest);
    vstd::utf8::encode_utf8_valid_utf8(s);
    vstd::utf8::encode_utf8_decode_utf8(s);
}

/// Decoding steps over one encoded child message and appends the child,
/// leaving the rest of the input to decode.
proof fn lemma_dec_child_field(t: AstView, rest: Seq<u8>, acc: AstView)
    requires
        dec_node(enc_node(t)) == Some(t),
    ensures
        dec_fields(seq![KEY_CHILD] + enc_varint(enc_node(t).len()) + enc_node(t) + rest, acc)
            == dec_fields(rest, AstView { children: acc.children.push(t), ..acc }),
{
    let u = enc_node(t);
    let b = seq![KEY_CHILD] + enc_varint(u.len()) + u + rest;
    let c = enc_varint(u.len()).len() as int;
    lemma_varint_round_trip(u.len(), u + rest);
    assert(b.skip(1) =~= enc_varint(u.len()) + (u + rest));
    assert(b[0] == KEY_CHILD);
    lemma_enc_varint_len(u.len());
    assert(b.len() == 1 + c + u.len() + rest.len());
    assert(dec_varint(b.skip(1)) == Some((u.len(), c)));
    assert(b.subrange(1 + c, 1 + c + u.len() as int) =~= u);
    assert(b.skip(1 + c + u.len() as int) =~= rest);
}

/// Decoding steps over the encodings of the first `i` children and appends
/// them in order.
proof fn lemma_dec_children(s: Seq<AstView>, i: int, rest: Seq<u8>, acc: AstView)
    requires
        0 <= i <= s.len(),
    ensures
        dec_fields(enc_children(s, i) + rest, acc) == dec_fields(
            rest,
            AstView { children: acc.children + s.subrange(0, i), ..acc },
        ),
    decreases s, i,
{
    if i == 0 {
        assert(enc_children(s, 0) + rest =~= rest);
        assert((AstView { children: acc.children + s.subrange(0, 0), ..acc }) =~~= acc);
    } else {
        let chunk = seq![KEY_CHILD] + enc_varint(enc_node(s[i - 1]).len()) + enc_node(s[i - 1]);
        assert(enc_children(s, i) + rest =~= enc_children(s, i - 1) + (chunk + rest));
        lemma_dec_children(s, i - 1, chunk + rest, acc);
        let acc1 = AstView { children: acc.children + s.subrange(0, i - 1), ..acc };
        lemma_node_round_trip(s[i - 1]);
        lemma_dec_child_field(s[i - 1], rest, acc1);
        assert(chunk + rest =~= seq![KEY_CHILD] + enc_varint(enc_node(s[i - 1]).len()) + enc_node(
            s[i - 1],
        ) + rest);
        assert(acc1.children.push(s[i - 1]) =~= acc.children + s.subrange(0, i));
        assert((AstView { children: acc1.children.push(s[i - 1]), ..acc1 }) =~~= (AstView {
            children: acc.children + s.subrange(0, i),
            ..acc
        }));
    }
}

/// Law piece: a node's encoding decodes back to the node itself.
pub proof fn lemma_node_round_trip(t: AstView)
    ensures
        dec_node(enc_node(t)) == Some(t),
    decreases t, 0int,
{
    let f1 = enc_str_field(KEY_KIND, t.kind);
    let f2 = enc_str_field(KEY_NAME, t.name);
    let ch = enc_children(t.children, t.children.len() as int);
    let acc0 = empty_node();
    let acc1 = AstView { kind: t.kind, ..acc0 };
    let acc2 = AstView { name: t.name, ..acc1 };
    assert(enc_node(t) =~= f1 + (f2 + ch));
    if t.kind.len() == 0 {
        assert(f1 + (f2 + ch) =~= f2 + ch);
        assert(acc1 =~~= acc0);
    } else {
        lemma_dec_str_field(KEY_KIND, t.kind, f2 + ch, acc0);
    }
    assert(dec_fields(enc_node(t), acc0) == dec_fields(f2 + ch, acc1));
    assert(f2 + ch =~= f2 + (ch + Seq::<u8>::empty()));
    if t.name.len() == 0 {
        assert(f2 + (ch + Seq::<u8>::empty()) =~= ch + Seq::<u8>::empty());
        assert(acc2 =~~= acc1);
    } else {
        lemma_dec_str_field(KEY_NAME, t.name, ch + Seq::<u8>::empty(), acc1);
    }
    assert(dec_fields(f2 + (ch + Seq::<u8>::empty()), acc1) == dec_fields(
        ch + Seq::<u8>::empty(),
        acc2,
    ));
    lemma_dec_children(t.children, t.children.len() as int, Seq::empty(), acc2);
    let accf = AstView { children: acc2.children + t.children.subrange(0, t.children.len() as int), ..acc2 };
    assert(dec_fields(Seq::<u8>::empty(), accf) == Some(accf));
    assert(accf.children =~= t.children);
    assert(accf =~~= t);
}

/// Appends the varint encoding of `n`.
fn encode_varint(n: u64, out: &mut Vec<u8>)
    ensures
        final(out)@ == old(out)@ + enc_varint(n as nat),
    decreases n,
{
    if n < 128 {
        out.push(n as u8);
        proof {
            assert(out@ =~= old(out)@ + enc_varint(n as nat));
        }
    } else {
        out.push((n % 128 + 128) as u8);
        encode_varint(n / 128, out);
        proof {
            assert((n % 128 + 128) as u8 == ((n as nat) % 128 + 128) as u8);
            assert((n / 128) as nat == (n as nat) / 128);
            assert(out@ =~= old(out)@ + enc_varint(n as nat));
        }
    }
}

/// Appends the encoding of one tree node.
fn encode_node(n: &AstNode, out: &mut Vec<u8>)
    ensures
        final(out)@ == old(out)@ + enc_node(n@),
    decreases n,
{
    proof {
        lemma_ast_views(n.children@, n.children@.len() as int);
    }
    let ghost base = out@;
    if !n.node_type.as_str().is_empty() {
        out.push(KEY_KIND);
        let mut b = n.node_type.as_str().as_bytes_vec();
        let blen: usize = b.len();
        encode_varint(blen as u64, out);
        out.append(&mut b);
    }
    proof {
        assert(out@ =~= base + enc_str_field(KEY_KIND, n@.kind));
    }
    let ghost f1 = out@;
    if !n.name.as_str().is_empty() {
        out.push(KEY_NAME);
        let mut b = n.name.as_str().as_bytes_vec();
        let blen: usize = b.len();
        encode_varint(blen as u64, out);
        out.append(&mut b);
    }
    proof {
        assert(out@ =~= f1 + enc_str_field(KEY_NAME, n@.name));
    }
    let ghost f12 = out@;
    let mut i: usize = 0;
    while i < n.children.len()
        invariant
            0 <= i <= n.children@.len(),
            n@.children.len() == n.children@.len(),
            forall|j: int| 0 <= j < n.children@.len() ==> n@.children[j] == n.children@[j]@,
            out@ == f12 + enc_children(n@.children, i as int),
        decreases n.children@.len() - i,
    {
        let mut buf: Vec<u8> = Vec::new();
        encode_node(&n.children[i], &mut buf);
        out.push(KEY_CHILD);
        let blen: usize = buf.len();
        encode_varint(blen as u64, out);
        out.append(&mut buf);
        proof {
            assert(out@ =~= f12 + enc_children(n@.children, i as int + 1));
        }
        i += 1;
    }
    proof {
        assert(out@ =~= old(out)@ + enc_node(n@));
    }
}

/// Encodes the tree into the wire format, wrapped in the envelope message.
pub fn encode_ast(root: &AstNode) -> (r: Vec<u8>)
    ensures
        r@ == enc_ast(root@),
{
    let mut body: Vec<u8> = Vec::new();
    encode_node(root, &mut body);
    let mut out: Vec<u8> = Vec::new();
    out.push(KEY_KIND);
    let blen: usize = body.len();
    encode_varint(blen as u64, &mut out);
    out.append(&mut body);
    proof {
        assert(out@ =~= enc_ast(root@));
    }
    out
}

/// The view of an optional node.
pub open spec fn opt_view(r: Option<AstNode>) -> Option<AstView> {
    match r {
        Some(n) => Some(n@),
        None => None,
    }
}

/// Reads the varint at `pos`, within `bytes[pos..end]`: the value and the
/// number of bytes it took, or nothing when none fits there or its value
/// does not fit 64 bits.
fn read_varint(bytes: &[u8], pos: usize, end: usize) -> (r: Option<(u64, usize)>)
    requires
        pos <= end <= bytes@.len(),
    ensures
        ({
            let d = dec_varint(bytes@.subrange(pos as int, end as int));
            match r {
                Some(p) => d == Some((p.0 as nat, p.1 as int)) && 1 <= p.1 && pos + p.1 <= end,
                None => match d {
                    None => true,
                    Some(q) => q.0 >= 0x10000000000000000nat,
                },
            }
        }),
    decreases end - pos,
{
    if pos >= end {
        return None;
    }
    let b0 = bytes[pos];
    proof {
        assert(bytes@.subrange(pos as int, end as int)[0] == b0);
    }
    if b0 < 128 {
        return Some((b0 as u64, 1));
    }
    proof {
        assert(bytes@.subrange(pos as int, end as int).skip(1) =~= bytes@.subrange(
            pos as int + 1,
            end as int,
        ));
    }
    match read_varint(bytes, pos + 1, end) {
        None => None,
        Some((v, c)) => {
            let a = (b0 - 128) as u64;
            proof {
                vstd::arithmetic::div_mod::lemma_fundamental_div_mod(
                    (u64::MAX - a) as int,
                    128,
                );
            }
            if v > (u64::MAX - a) / 128 {
                None
            } else {
                Some((a + 128 * v, c + 1))
            }
        },
    }
}

/// The bytes of `bytes[a..b]`, as a fresh vector.
fn copy_range(bytes: &[u8], a: usize, b: usize) -> (r: Vec<u8>)
    requires
        a <= b <= bytes@.len(),
    ensures
        r@ == bytes@.subrange(a as int, b as int),
{
    let mut r: Vec<u8> = Vec::new();
    let mut i: usize = a;
    while i < b
        invariant
            a <= i <= b <= bytes@.len(),
            r@.len() == i - a,
            forall|j: int| 0 <= j < r@.len() ==> r@[j] == bytes@[a + j],
        decreases b - i,
    {
        r.push(bytes[i]);
        i += 1;
    }
    proof {
        assert(r@ =~= bytes@.subrange(a as int, b as int));
    }
    r
}

/// Relies on `String::from_utf8`: it succeeds exactly on valid UTF-8, and
/// the returned string's UTF-8 encoding is exactly the input bytes.
#[verifier::external_body]
fn string_from_utf8(bytes: Vec<u8>) -> (r: Option<String>)
    ensures
        match r {
            Some(s) => encode_utf8(s@) == bytes@,
            None => !valid_utf8(bytes@),
        },
        valid_utf8(bytes@) ==> r is Some,
{
    String::from_utf8(bytes).ok()
}

/// Decodes the fields of the message `bytes[pos..end]` into `acc`.
fn decode_fields(bytes: &[u8], pos: usize, end: usize, acc: AstNode) -> (r: Option<AstNode>)
    requires
        pos <= end <= bytes@.len(),
    ensures
        opt_view(r) == dec_fields(bytes@.subrange(pos as int, end as int), acc@),
    decreases end - pos, 0int,
{
    let ghost b = bytes@.subrange(pos as int, end as int);
    if pos == end {
        return Some(acc);
    }
    let key = bytes[pos];
    proof {
        assert(b[0] == key);
    }
    if key != KEY_KIND && key != KEY_NAME && key != KEY_CHILD {
        return None;
    }
    proof {
        assert(b.skip(1) =~= bytes@.subrange(pos as int + 1, end as int));
        assert(b.len() < 0x10000000000000000int);
    }
    match read_varint(bytes, pos + 1, end) {
        None => None,
        Some((len_v, c)) => {
            let remaining: usize = end - (pos + 1) - c;
            if len_v > remaining as u64 {
                return None;
            }
            let start: usize = pos + 1 + c;
            let pend: usize = start + (len_v as usize);
            proof {
                assert(b.subrange(
                    1 + c as int,
                    1 + c as int + len_v as int,
                ) =~= bytes@.subrange(start as int, pend as int));
                assert(b.skip(1 + c as int + len_v as int) =~= bytes@.subrange(
                    pend as int,
                    end as int,
                ));
            }
            if key == KEY_CHILD {
                match decode_node_range(bytes, start, pend) {
                    None => None,
                    Some(child) => {
                        let ghost acc0 = acc@;
                        let ghost oc = acc.children@;
                        let mut acc = acc;
                        acc.children.push(child);
                        proof {
                            lemma_ast_views(oc, oc.len() as int);
                            lemma_ast_views(acc.children@, acc.children@.len() as int);
                            assert(ast_views(acc.children@, acc.children@.len() as int)
                                =~= acc0.children.push(child@));
                            assert(acc@ =~~= (AstView {
                                children: acc0.children.push(child@),
                                ..acc0
                            }));
                        }
                        decode_fields(bytes, pend, end, acc)
                    },
                }
            } else {
                let payload = copy_range(bytes, start, pend);
                match string_from_utf8(payload) {
                    None => None,
                    Some(s) => {
                        proof {
                            vstd::utf8::encode_utf8_valid_utf8(s@);
                            vstd::utf8::encode_utf8_decode_utf8(s@);
                        }
                        let ghost acc0 = acc@;
                        let mut acc = acc;
                        if key == KEY_KIND {
                            acc.node_type = s;
                            proof {
                                assert(acc@ =~~= (AstView {
                                    kind: decode_utf8(bytes@.subrange(start as int, pend as int)),
                                    ..acc0
                                }));
                            }
                        } else {
                            acc.name = s;
                            proof {
                                assert(acc@ =~~= (AstView {
                                    name: decode_utf8(bytes@.subrange(start as int, pend as int)),
                                    ..acc0
                                }));
                            }
                        }
                        decode_fields(bytes, pend, end, acc)
                    },
                }
            }
        },
    }
}

/// Decodes the message `bytes[pos..end]` as one tree node.
fn decode_node_range(bytes: &[u8], pos: usize, end: usize) -> (r: Option<AstNode>)
    requires
        pos <= end <= bytes@.len(),
    ensures
        opt_view(r) == dec_node(bytes@.subrange(pos as int, end as int)),
    decreases end - pos, 1int,
{
    let acc = AstNode { node_type: String::new(), name: String::new(), children: Vec::new() };
    proof {
        assert(acc@ =~~= empty_node());
    }
    decode_fields(bytes, pos, end, acc)
}

/// Decodes an encoded envelope back into the tree it holds: the inverse of
/// `encode_ast` on everything `encode_ast` produces. Bytes that are not an
/// envelope with exactly one `root` field spanning the whole input yield
/// nothing.
pub fn decode_ast(bytes: &[u8]) -> (r: Option<AstNode>)
    ensures
        opt_view(r) == dec_ast(bytes@),
{
    let n: usize = bytes.len();
    if n == 0 {
        return None;
    }
    if bytes[0] != KEY_KIND {
        return None;
    }
    proof {
        assert(bytes@.subrange(1int, n as int) =~= bytes@.skip(1));
    }
    match read_varint(bytes, 1, n) {
        None => None,
        Some((len_v, c)) => {
            if len_v != (n - 1 - c) as u64 {
                return None;
            }
            proof {
                assert(bytes@.subrange(1 + c as int, n as int) =~= bytes@.subrange(
                    1 + c as int,
                    bytes@.len() as int,
                ));
            }
            decode_node_range(bytes, 1 + c, n)
        },
    }
}

/// Law: encoding a tree to the wire format and decoding the bytes back
/// yields the tree unchanged — same kind, name and children everywhere.
pub proof fn lemma_ast_round_trip(t: AstView)
    ensures
        dec_ast(enc_ast(t)) == Some(t),
{
    let u = enc_node(t);
    let b = enc_ast(t);
    let c = enc_varint(u.len()).len() as int;
    lemma_varint_round_trip(u.len(), u);
    assert(b.skip(1) =~= enc_varint(u.len()) + u);
    assert(b[0] == KEY_KIND);
    lemma_enc_varint_len(u.len());
    assert(b.len() == 1 + c + u.len());
    assert(b.subrange(1 + c, b.len() as int) =~= u);
    lemma_node_round_trip(t);
}

} // verus!
