//! The byte format in which shard RPCs travel between peers: a SCALE
//! encoding (compact length prefixes, little-endian integers, tagged
//! options and enum variants).
use vstd::prelude::*;
use vstd::utf8::*;

use crate::shards::protocol::{
    join_models, message_models, shard_names, JoinModel, MessageModel, Rpc, RpcModel, ShardsAction,
    ShardsJoin, ShardsMessage,
};
use crate::shards::shard::Shard;

verus! {

/// The largest length a compact prefix can carry.
pub open spec fn fits_u32(n: int) -> bool {
    0 <= n <= u32::MAX
}

/// The compact encoding of a length: two mode bits in the low bits of the
/// first byte select a 1, 2 or 4 byte little-endian form, or a marker byte
/// followed by four bytes.
pub open spec fn compact_u32(n: nat) -> Seq<u8> {
    if n < 64 {
        seq![(n * 4) as u8]
    } else if n < 16384 {
        let v = n * 4 + 1;
        seq![(v % 256) as u8, (v / 256) as u8]
    } else if n < 1073741824 {
        let v = n * 4 + 2;
        seq![(v % 256) as u8, ((v / 256) % 256) as u8, ((v / 65536) % 256) as u8, (v / 16777216) as u8]
    } else {
        seq![3u8, (n % 256) as u8, ((n / 256) % 256) as u8, ((n / 65536) % 256) as u8, (n / 16777216) as u8]
    }
}

/// Reads a compact length from the front of `b`: the value and the number of
/// bytes it took. Only the shortest form of each value is accepted.
pub open spec fn parse_compact(b: Seq<u8>) -> Option<(nat, int)> {
    if b.len() < 1 {
        None
    } else {
        let p = b[0] as nat;
        if p % 4 == 0 {
            Some((p / 4, 1))
        } else if p % 4 == 1 {
            if b.len() < 2 {
                None
            } else {
                let x = (p + 256 * (b[1] as nat)) / 4;
                if 64 <= x { Some((x, 2)) } else { None }
            }
        } else if p % 4 == 2 {
            if b.len() < 4 {
                None
            } else {
                let x = (p + 256 * (b[1] as nat) + 65536 * (b[2] as nat) + 16777216 * (b[3] as nat)) / 4;
                if 16384 <= x { Some((x, 4)) } else { None }
            }
        } else if p / 4 == 0 {
            if b.len() < 5 {
                None
            } else {
                let x = b[1] as nat + 256 * (b[2] as nat) + 65536 * (b[3] as nat) + 16777216 * (b[4] as nat);
                if 1073741824 <= x { Some((x, 5)) } else { None }
            }
        } else {
            None
        }
    }
}

/// Reading back the compact form of a length gives that length, whatever follows it.
pub proof fn lemma_compact_roundtrip(n: nat, rest: Seq<u8>)
    requires
        fits_u32(n as int),
    ensures
        parse_compact(compact_u32(n) + rest) == Some((n, compact_u32(n).len() as int)),
{
    let b = compact_u32(n) + rest;
    if n < 64 {
        assert(b[0] == (n * 4) as u8);
    } else if n < 16384 {
        let v = n * 4 + 1;
        assert(b[0] == (v % 256) as u8 && b[1] == (v / 256) as u8);
        assert((v % 256) + 256 * (v / 256) == v);
    } else if n < 1073741824 {
        let v = n * 4 + 2;
        assert(b[0] == (v % 256) as u8);
        assert(b[1] == ((v / 256) % 256) as u8);
        assert(b[2] == ((v / 65536) % 256) as u8);
        assert(b[3] == (v / 16777216) as u8);
        assert((v % 256) + 256 * ((v / 256) % 256) + 65536 * ((v / 65536) % 256) + 16777216 * (v / 16777216) == v) by (nonlinear_arith)
            requires v >= 0;
    } else {
        assert(b[0] == 3u8);
        assert(b[1] == (n % 256) as u8);
        assert(b[2] == ((n / 256) % 256) as u8);
        assert(b[3] == ((n / 65536) % 256) as u8);
        assert(b[4] == (n / 16777216) as u8);
        assert((n % 256) + 256 * ((n / 256) % 256) + 65536 * ((n / 65536) % 256) + 16777216 * (n / 16777216) == n) by (nonlinear_arith)
            requires n >= 0;
    }
}


/// The compact form of a length, as SCALE writes it: below 64 one byte
/// holding four times the length; below 2^14 two bytes, below 2^30 four
/// bytes, holding four times the length plus the mode (1 or 2) little-endian;
/// above that the marker byte 3 and the length in four little-endian bytes.
pub proof fn law_compact_little_endian(n: nat)
    requires
        fits_u32(n as int),
    ensures
        n < 64 ==> compact_u32(n) == seq![(4 * n) as u8],
        64 <= n < 16384 ==> compact_u32(n).len() == 2
            && compact_u32(n)[0] + 256 * compact_u32(n)[1] == 4 * n + 1,
        16384 <= n < 1073741824 ==> compact_u32(n).len() == 4
            && compact_u32(n)[0] + 256 * compact_u32(n)[1] + 65536 * compact_u32(n)[2]
                + 16777216 * compact_u32(n)[3] == 4 * n + 2,
        1073741824 <= n ==> compact_u32(n).len() == 5 && compact_u32(n)[0] == 3
            && compact_u32(n)[1] + 256 * compact_u32(n)[2] + 65536 * compact_u32(n)[3]
                + 16777216 * compact_u32(n)[4] == n,
{
    let c = compact_u32(n);
    if n < 64 {
    } else if n < 16384 {
        let v = n * 4 + 1;
        assert(c[0] == (v % 256) as u8 && c[1] == (v / 256) as u8);
        assert((v % 256) + 256 * (v / 256) == v);
    } else if n < 1073741824 {
        let v = n * 4 + 2;
        assert(c[0] == (v % 256) as u8);
        assert(c[1] == ((v / 256) % 256) as u8);
        assert(c[2] == ((v / 65536) % 256) as u8);
        assert(c[3] == (v / 16777216) as u8);
        assert((v % 256) + 256 * ((v / 256) % 256) + 65536 * ((v / 65536) % 256) + 16777216 * (v / 16777216) == v) by (nonlinear_arith)
            requires v >= 0;
    } else {
        assert(c[1] == (n % 256) as u8);
        assert(c[2] == ((n / 256) % 256) as u8);
        assert(c[3] == ((n / 65536) % 256) as u8);
        assert(c[4] == (n / 16777216) as u8);
        assert((n % 256) + 256 * ((n / 256) % 256) + 65536 * ((n / 65536) % 256) + 16777216 * (n / 16777216) == n) by (nonlinear_arith)
            requires n >= 0;
    }
}

/// A byte string with its length in front.
pub open spec fn enc_bytes(s: Seq<u8>) -> Seq<u8> {
    compact_u32(s.len()) + s
}

/// Reads a length-prefixed byte string.
pub open spec fn parse_bytes(b: Seq<u8>) -> Option<(Seq<u8>, int)> {
    match parse_compact(b) {
        None => None,
        Some((n, k)) => if k + n <= b.len() {
            Some((b.subrange(k, k + n), k + n))
        } else {
            None
        },
    }
}

/// A byte string is written verbatim, in order, right after its compact
/// length, as SCALE writes a `Vec<u8>`.
pub proof fn law_bytes_verbatim(s: Seq<u8>)
    ensures
        enc_bytes(s) == compact_u32(s.len()) + s,
        enc_bytes(s).len() == compact_u32(s.len()).len() + s.len(),
        forall|i: int| 0 <= i < s.len() ==> #[trigger] enc_bytes(s)[compact_u32(s.len()).len() + i] == s[i],
{
}

/// A text: its UTF-8 bytes, length-prefixed.
pub open spec fn enc_str(c: Seq<char>) -> Seq<u8> {
    enc_bytes(encode_utf8(c))
}

/// Reads a text; the bytes must be valid UTF-8.
#[verifier::opaque]
pub open spec fn parse_str(b: Seq<u8>) -> Option<(Seq<char>, int)> {
    match parse_bytes(b) {
        None => None,
        Some((s, k)) => if valid_utf8(s) {
            Some((decode_utf8(s), k))
        } else {
            None
        },
    }
}

/// Reads `count` items one after the other.
pub open spec fn parse_items<T>(
    count: nat,
    b: Seq<u8>,
    item: spec_fn(Seq<u8>) -> Option<(T, int)>,
) -> Option<(Seq<T>, int)>
    decreases count,
{
    if count == 0 {
        Some((Seq::empty(), 0))
    } else {
        match item(b) {
            None => None,
            Some((x, k)) => if 0 <= k <= b.len() {
                match parse_items((count - 1) as nat, b.skip(k), item) {
                    None => None,
                    Some((xs, k2)) => Some((seq![x] + xs, k + k2)),
                }
            } else {
                None
            },
        }
    }
}

/// Reads a list: a compact item count, then the items.
#[verifier::opaque]
pub open spec fn parse_list<T>(b: Seq<u8>, item: spec_fn(Seq<u8>) -> Option<(T, int)>) -> Option<(Seq<T>, int)> {
    match parse_compact(b) {
        None => None,
        Some((n, k)) => match parse_items(n, b.skip(k), item) {
            None => None,
            Some((xs, k2)) => Some((xs, k + k2)),
        },
    }
}

/// The encodings of the items, one after the other.
pub open spec fn enc_items<T>(xs: Seq<T>, enc: spec_fn(T) -> Seq<u8>) -> Seq<u8>
    decreases xs.len(),
{
    if xs.len() == 0 {
        Seq::empty()
    } else {
        enc(xs[0]) + enc_items(xs.drop_first(), enc)
    }
}

/// A list: the item count, then the items.
pub open spec fn enc_list<T>(xs: Seq<T>, enc: spec_fn(T) -> Seq<u8>) -> Seq<u8> {
    compact_u32(xs.len()) + enc_items(xs, enc)
}

pub open spec fn str_encoder() -> spec_fn(Seq<char>) -> Seq<u8> {
    |c: Seq<char>| enc_str(c)
}

pub open spec fn str_parser() -> spec_fn(Seq<u8>) -> Option<(Seq<char>, int)> {
    |b: Seq<u8>| parse_str(b)
}

/// A message: source, data and sequence number as byte strings, then its shard names.
pub open spec fn enc_message(m: MessageModel) -> Seq<u8> {
    enc_bytes(m.source) + enc_bytes(m.data) + enc_bytes(m.sequence_number) + enc_list(m.shards, str_encoder())
}

#[verifier::opaque]
pub open spec fn parse_message(b: Seq<u8>) -> Option<(MessageModel, int)> {
    match parse_bytes(b) {
        None => None,
        Some((source, k1)) => match parse_bytes(b.skip(k1)) {
            None => None,
            Some((data, k2)) => match parse_bytes(b.skip(k1 + k2)) {
                None => None,
                Some((sequence_number, k3)) => match parse_list(b.skip(k1 + k2 + k3), str_parser()) {
                    None => None,
                    Some((shards, k4)) => Some((
                        MessageModel { source, data, sequence_number, shards },
                        k1 + k2 + k3 + k4,
                    )),
                },
            },
        },
    }
}

/// The bytes of a message hold its source, data and sequence number
/// verbatim, each right after its compact length, then its shard names.
pub proof fn law_message_fields_verbatim(m: MessageModel)
    ensures
        enc_message(m) == compact_u32(m.source.len()) + m.source + compact_u32(m.data.len()) + m.data
            + compact_u32(m.sequence_number.len()) + m.sequence_number + enc_list(m.shards, str_encoder()),
{
    law_bytes_verbatim(m.source);
    law_bytes_verbatim(m.data);
    law_bytes_verbatim(m.sequence_number);
    assert(enc_message(m) =~= compact_u32(m.source.len()) + m.source + compact_u32(m.data.len()) + m.data
            + compact_u32(m.sequence_number.len()) + m.sequence_number + enc_list(m.shards, str_encoder()));
}

pub open spec fn message_encoder() -> spec_fn(MessageModel) -> Seq<u8> {
    |m: MessageModel| enc_message(m)
}

pub open spec fn message_parser() -> spec_fn(Seq<u8>) -> Option<(MessageModel, int)> {
    |b: Seq<u8>| parse_message(b)
}

/// The index byte of an action: its position among the variants.
pub open spec fn action_tag(a: ShardsAction) -> u8 {
    match a {
        ShardsAction::Join => 0u8,
        ShardsAction::Leave => 1u8,
    }
}

/// A join notice: the action's index byte, then the shard name.
pub open spec fn enc_join(j: JoinModel) -> Seq<u8> {
    seq![action_tag(j.action)] + enc_str(j.shard)
}

#[verifier::opaque]
pub open spec fn parse_join(b: Seq<u8>) -> Option<(JoinModel, int)> {
    if b.len() < 1 {
        None
    } else if b[0] > 1 {
        None
    } else {
        let action = if b[0] == 0 { ShardsAction::Join } else { ShardsAction::Leave };
        match parse_str(b.skip(1)) {
            None => None,
            Some((shard, k)) => Some((JoinModel { action, shard }, 1 + k)),
        }
    }
}

pub open spec fn join_encoder() -> spec_fn(JoinModel) -> Seq<u8> {
    |j: JoinModel| enc_join(j)
}

pub open spec fn join_parser() -> spec_fn(Seq<u8>) -> Option<(JoinModel, int)> {
    |b: Seq<u8>| parse_join(b)
}

/// An optional byte: a 0 tag, or a 1 tag followed by the byte.
pub open spec fn enc_ttl(t: Option<u8>) -> Seq<u8> {
    match t {
        None => seq![0u8],
        Some(v) => seq![1u8, v],
    }
}

pub open spec fn parse_ttl(b: Seq<u8>) -> Option<(Option<u8>, int)> {
    if b.len() < 1 {
        None
    } else if b[0] == 0 {
        Some((None, 1))
    } else if b[0] == 1 {
        if b.len() < 2 { None } else { Some((Some(b[1]), 2)) }
    } else {
        None
    }
}

/// The bytes of an RPC: its messages, its join notices, then its hop count.
pub open spec fn enc_rpc(r: RpcModel) -> Seq<u8> {
    enc_list(r.messages, message_encoder()) + enc_list(r.shards, join_encoder()) + enc_ttl(r.ttl)
}

/// Reads an RPC from the front of `b`; bytes after it are left unread.
pub open spec fn parse_rpc(b: Seq<u8>) -> Option<(RpcModel, int)> {
    match parse_list(b, message_parser()) {
        None => None,
        Some((messages, k1)) => match parse_list(b.skip(k1), join_parser()) {
            None => None,
            Some((shards, k2)) => match parse_ttl(b.skip(k1 + k2)) {
                None => None,
                Some((ttl, k3)) => Some((RpcModel { messages, shards, ttl }, k1 + k2 + k3)),
            },
        },
    }
}

/// Every length in the message fits a compact prefix.
pub open spec fn message_fits(m: MessageModel) -> bool {
    &&& fits_u32(m.source.len() as int)
    &&& fits_u32(m.data.len() as int)
    &&& fits_u32(m.sequence_number.len() as int)
    &&& fits_u32(m.shards.len() as int)
    &&& forall|i: int| 0 <= i < m.shards.len() ==> fits_u32(#[trigger] encode_utf8(m.shards[i]).len() as int)
}

/// Every length in the RPC fits a compact prefix, so that it can be encoded.
pub open spec fn rpc_fits(r: RpcModel) -> bool {
    &&& fits_u32(r.messages.len() as int)
    &&& fits_u32(r.shards.len() as int)
    &&& forall|i: int| 0 <= i < r.messages.len() ==> message_fits(#[trigger] r.messages[i])
    &&& forall|i: int| 0 <= i < r.shards.len() ==> fits_u32(#[trigger] encode_utf8(r.shards[i].shard).len() as int)
}

pub proof fn lemma_bytes_roundtrip(s: Seq<u8>, rest: Seq<u8>)
    requires
        fits_u32(s.len() as int),
    ensures
        parse_bytes(enc_bytes(s) + rest) == Some((s, enc_bytes(s).len() as int)),
{
    let c = compact_u32(s.len());
    lemma_compact_roundtrip(s.len(), s + rest);
    assert(enc_bytes(s) + rest =~= c + (s + rest));
    let b = enc_bytes(s) + rest;
    assert(b.subrange(c.len() as int, (c.len() + s.len()) as int) =~= s);
}

pub proof fn lemma_str_roundtrip(c: Seq<char>, rest: Seq<u8>)
    requires
        fits_u32(encode_utf8(c).len() as int),
    ensures
        parse_str(enc_str(c) + rest) == Some((c, enc_str(c).len() as int)),
{
    reveal(parse_str);
    lemma_bytes_roundtrip(encode_utf8(c), rest);
    encode_utf8_valid_utf8(c);
    encode_utf8_decode_utf8(c);
}

pub proof fn lemma_items_roundtrip<T>(
    xs: Seq<T>,
    rest: Seq<u8>,
    item: spec_fn(Seq<u8>) -> Option<(T, int)>,
    enc: spec_fn(T) -> Seq<u8>,
)
    requires
        forall|i: int, r: Seq<u8>| 0 <= i < xs.len() ==> #[trigger] item(enc(xs[i]) + r) == Some((xs[i], enc(xs[i]).len() as int)),
    ensures
        parse_items(xs.len(), enc_items(xs, enc) + rest, item) == Some((xs, enc_items(xs, enc).len() as int)),
    decreases xs.len(),
{
    if xs.len() > 0 {
        let tail = xs.drop_first();
        let b = enc_items(xs, enc) + rest;
        let after = enc_items(tail, enc) + rest;
        assert(b =~= enc(xs[0]) + after);
        assert(item(enc(xs[0]) + after) == Some((xs[0], enc(xs[0]).len() as int)));
        assert(b.skip(enc(xs[0]).len() as int) =~= after);
        assert forall|i: int, r: Seq<u8>| 0 <= i < tail.len() implies #[trigger] item(enc(tail[i]) + r) == Some((tail[i], enc(tail[i]).len() as int)) by {
            assert(tail[i] == xs[i + 1]);
            assert(item(enc(xs[i + 1]) + r) == Some((xs[i + 1], enc(xs[i + 1]).len() as int)));
        }
        lemma_items_roundtrip(tail, rest, item, enc);
        assert(seq![xs[0]] + tail =~= xs);
    }
}

pub proof fn lemma_list_roundtrip<T>(
    xs: Seq<T>,
    rest: Seq<u8>,
    item: spec_fn(Seq<u8>) -> Option<(T, int)>,
    enc: spec_fn(T) -> Seq<u8>,
)
    requires
        fits_u32(xs.len() as int),
        forall|i: int, r: Seq<u8>| 0 <= i < xs.len() ==> #[trigger] item(enc(xs[i]) + r) == Some((xs[i], enc(xs[i]).len() as int)),
    ensures
        parse_list(enc_list(xs, enc) + rest, item) == Some((xs, enc_list(xs, enc).len() as int)),
{
    reveal(parse_list);
    let c = compact_u32(xs.len());
    let body = enc_items(xs, enc) + rest;
    lemma_compact_roundtrip(xs.len(), body);
    assert(enc_list(xs, enc) + rest =~= c + body);
    assert((c + body).skip(c.len() as int) =~= body);
    lemma_items_roundtrip(xs, rest, item, enc);
}

pub proof fn lemma_names_roundtrip(names: Seq<Seq<char>>, rest: Seq<u8>)
    requires
        fits_u32(names.len() as int),
        forall|i: int| 0 <= i < names.len() ==> fits_u32(#[trigger] encode_utf8(names[i]).len() as int),
    ensures
        parse_list(enc_list(names, str_encoder()) + rest, str_parser()) == Some((names, enc_list(names, str_encoder()).len() as int)),
{
    assert forall|i: int, r: Seq<u8>| 0 <= i < names.len() implies #[trigger] str_parser()(str_encoder()(names[i]) + r) == Some((names[i], str_encoder()(names[i]).len() as int)) by {
        lemma_str_roundtrip(names[i], r);
    }
    lemma_list_roundtrip(names, rest, str_parser(), str_encoder());
}

#[verifier::rlimit(40)]
pub proof fn lemma_message_roundtrip(m: MessageModel, rest: Seq<u8>)
    requires
        message_fits(m),
    ensures
        parse_message(enc_message(m) + rest) == Some((m, enc_message(m).len() as int)),
{
    reveal(parse_message);
    let e1 = enc_bytes(m.source);
    let e2 = enc_bytes(m.data);
    let e3 = enc_bytes(m.sequence_number);
    let e4 = enc_list(m.shards, str_encoder());
    let b = enc_message(m) + rest;
    let r1 = e2 + e3 + e4 + rest;
    let r2 = e3 + e4 + rest;
    let r3 = e4 + rest;
    assert(b =~= e1 + r1);
    lemma_bytes_roundtrip(m.source, r1);
    assert(parse_bytes(b) == Some((m.source, e1.len() as int)));
    let k1 = e1.len() as int;
    assert(b.skip(k1) =~= e2 + r2);
    lemma_bytes_roundtrip(m.data, r2);
    assert(parse_bytes(b.skip(k1)) == Some((m.data, e2.len() as int)));
    let k2 = e2.len() as int;
    assert(b.skip(k1 + k2) =~= e3 + r3);
    lemma_bytes_roundtrip(m.sequence_number, r3);
    assert(parse_bytes(b.skip(k1 + k2)) == Some((m.sequence_number, e3.len() as int)));
    let k3 = e3.len() as int;
    assert(b.skip(k1 + k2 + k3) =~= e4 + rest);
    lemma_names_roundtrip(m.shards, rest);
    assert(parse_list(b.skip(k1 + k2 + k3), str_parser()) == Some((m.shards, e4.len() as int)));
    assert(enc_message(m).len() == k1 + k2 + k3 + e4.len());
}

pub proof fn lemma_join_roundtrip(j: JoinModel, rest: Seq<u8>)
    requires
        fits_u32(encode_utf8(j.shard).len() as int),
    ensures
        parse_join(enc_join(j) + rest) == Some((j, enc_join(j).len() as int)),
{
    reveal(parse_join);
    let b = enc_join(j) + rest;
    assert(b.skip(1) =~= enc_str(j.shard) + rest);
    lemma_str_roundtrip(j.shard, rest);
    assert(b[0] == action_tag(j.action));
}

/// Decoding the encoding of an RPC gives back that RPC and reads exactly its
/// bytes, whatever follows them.
pub proof fn lemma_messages_roundtrip(ms: Seq<MessageModel>, rest: Seq<u8>)
    requires
        fits_u32(ms.len() as int),
        forall|i: int| 0 <= i < ms.len() ==> message_fits(#[trigger] ms[i]),
    ensures
        parse_list(enc_list(ms, message_encoder()) + rest, message_parser()) == Some((ms, enc_list(ms, message_encoder()).len() as int)),
{
    assert forall|i: int, x: Seq<u8>| 0 <= i < ms.len() implies #[trigger] message_parser()(message_encoder()(ms[i]) + x) == Some((ms[i], message_encoder()(ms[i]).len() as int)) by {
        lemma_message_roundtrip(ms[i], x);
    }
    lemma_list_roundtrip(ms, rest, message_parser(), message_encoder());
}

pub proof fn lemma_joins_roundtrip(js: Seq<JoinModel>, rest: Seq<u8>)
    requires
        fits_u32(js.len() as int),
        forall|i: int| 0 <= i < js.len() ==> fits_u32(#[trigger] encode_utf8(js[i].shard).len() as int),
    ensures
        parse_list(enc_list(js, join_encoder()) + rest, join_parser()) == Some((js, enc_list(js, join_encoder()).len() as int)),
{
    assert forall|i: int, x: Seq<u8>| 0 <= i < js.len() implies #[trigger] join_parser()(join_encoder()(js[i]) + x) == Some((js[i], join_encoder()(js[i]).len() as int)) by {
        lemma_join_roundtrip(js[i], x);
    }
    lemma_list_roundtrip(js, rest, join_parser(), join_encoder());
}

/// Decoding the encoding of an RPC gives back that RPC and reads exactly its
/// bytes, whatever follows them.
#[verifier::rlimit(40)]
pub proof fn lemma_rpc_roundtrip(r: RpcModel, rest: Seq<u8>)
    requires
        rpc_fits(r),
    ensures
        parse_rpc(enc_rpc(r) + rest) == Some((r, enc_rpc(r).len() as int)),
{
    let e1 = enc_list(r.messages, message_encoder());
    let e2 = enc_list(r.shards, join_encoder());
    let e3 = enc_ttl(r.ttl);
    let b = enc_rpc(r) + rest;
    let k1 = e1.len() as int;
    let k2 = e2.len() as int;
    assert(parse_list(b, message_parser()) == Some((r.messages, k1))) by {
        assert(b =~= e1 + (e2 + e3 + rest));
        lemma_messages_roundtrip(r.messages, e2 + e3 + rest);
    }
    assert(parse_list(b.skip(k1), join_parser()) == Some((r.shards, k2))) by {
        assert(b.skip(k1) =~= e2 + (e3 + rest));
        lemma_joins_roundtrip(r.shards, e3 + rest);
    }
    assert(parse_ttl(b.skip(k1 + k2)) == Some((r.ttl, e3.len() as int))) by {
        assert(b.skip(k1 + k2) =~= e3 + rest);
    }
}

/// The encoding of a list of items, each taking at least one byte, is at
/// least as long as the list and at least as long as each item's encoding.
proof fn lemma_enc_items_len<T>(xs: Seq<T>, enc: spec_fn(T) -> Seq<u8>)
    requires
        forall|i: int| 0 <= i < xs.len() ==> #[trigger] enc(xs[i]).len() >= 1,
    ensures
        enc_items(xs, enc).len() >= xs.len(),
        forall|i: int| 0 <= i < xs.len() ==> #[trigger] enc(xs[i]).len() <= enc_items(xs, enc).len(),
    decreases xs.len(),
{
    if xs.len() > 0 {
        let tail = xs.drop_first();
        assert forall|i: int| 0 <= i < tail.len() implies #[trigger] enc(tail[i]).len() >= 1 by {
            assert(tail[i] == xs[i + 1]);
        }
        lemma_enc_items_len(tail, enc);
        assert(enc(xs[0]).len() >= 1);
        assert forall|i: int| 0 <= i < xs.len() implies #[trigger] enc(xs[i]).len() <= enc_items(xs, enc).len() by {
            if i > 0 {
                assert(xs[i] == tail[i - 1]);
            }
        }
    }
}

proof fn lemma_compact_len(n: nat)
    ensures
        compact_u32(n).len() >= 1,
{
}

proof fn lemma_small_message_fits(m: MessageModel, limit: int)
    requires
        enc_message(m).len() <= limit,
        limit < u32::MAX,
    ensures
        message_fits(m),
{
    lemma_compact_len(m.source.len());
    lemma_compact_len(m.data.len());
    lemma_compact_len(m.sequence_number.len());
    assert forall|i: int| 0 <= i < m.shards.len() implies #[trigger] str_encoder()(m.shards[i]).len() >= 1 by {
        lemma_compact_len(encode_utf8(m.shards[i]).len());
    }
    lemma_enc_items_len(m.shards, str_encoder());
    assert forall|i: int| 0 <= i < m.shards.len() implies fits_u32(#[trigger] encode_utf8(m.shards[i]).len() as int) by {
        assert(str_encoder()(m.shards[i]).len() <= enc_items(m.shards, str_encoder()).len());
    }
}

/// An RPC whose encoding is at most `limit` bytes, for a limit below the
/// largest compact length, has every length within a compact prefix.
pub proof fn lemma_small_rpc_fits(r: RpcModel, limit: int)
    requires
        enc_rpc(r).len() <= limit,
        limit < u32::MAX,
    ensures
        rpc_fits(r),
{
    assert forall|i: int| 0 <= i < r.messages.len() implies #[trigger] message_encoder()(r.messages[i]).len() >= 1 by {
        lemma_compact_len(r.messages[i].source.len());
    }
    lemma_enc_items_len(r.messages, message_encoder());
    assert forall|i: int| 0 <= i < r.shards.len() implies #[trigger] join_encoder()(r.shards[i]).len() >= 1 by {
    }
    lemma_enc_items_len(r.shards, join_encoder());
    assert forall|i: int| 0 <= i < r.messages.len() implies message_fits(#[trigger] r.messages[i]) by {
        assert(message_encoder()(r.messages[i]).len() <= enc_items(r.messages, message_encoder()).len());
        lemma_small_message_fits(r.messages[i], limit);
    }
    assert forall|i: int| 0 <= i < r.shards.len() implies fits_u32(#[trigger] encode_utf8(r.shards[i].shard).len() as int) by {
        assert(join_encoder()(r.shards[i]).len() <= enc_items(r.shards, join_encoder()).len());
    }
}

/// Appends the compact form of `n` to `out`.
pub fn write_compact(n: u32, out: &mut Vec<u8>)
    ensures
        final(out)@ == old(out)@ + compact_u32(n as nat),
{
    if n < 64 {
        out.push((n * 4) as u8);
    } else if n < 16384 {
        let v: u32 = n * 4 + 1;
        out.push((v % 256) as u8);
        out.push((v / 256) as u8);
    } else if n < 1073741824 {
        let v: u32 = n * 4 + 2;
        out.push((v % 256) as u8);
        out.push(((v / 256) % 256) as u8);
        out.push(((v / 65536) % 256) as u8);
        out.push((v / 16777216) as u8);
    } else {
        out.push(3u8);
        out.push((n % 256) as u8);
        out.push(((n / 256) % 256) as u8);
        out.push(((n / 65536) % 256) as u8);
        out.push((n / 16777216) as u8);
    }
    assert(final(out)@ =~= old(out)@ + compact_u32(n as nat));
}

/// Reads a compact length at `pos`; on success gives the value and the
/// position just after it.
pub fn read_compact(data: &[u8], pos: usize) -> (r: Option<(u32, usize)>)
    requires
        pos <= data@.len(),
    ensures
        r matches Some((_, p)) ==> pos <= p <= data@.len(),
        match parse_compact(data@.skip(pos as int)) {
            None => r is None,
            Some((n, k)) => r matches Some((v, p)) && v as nat == n && p as int == pos + k,
        },
{
    let ghost b = data@.skip(pos as int);
    if pos >= data.len() {
        return None;
    }
    let p: u8 = data[pos];
    assert(b[0] == p);
    if p % 4 == 0 {
        Some(((p / 4) as u32, pos + 1))
    } else if p % 4 == 1 {
        if data.len() - pos < 2 {
            return None;
        }
        let b1: u8 = data[pos + 1];
        assert(b[1] == b1);
        let x: u32 = (p as u32 + 256 * (b1 as u32)) / 4;
        if 64 <= x { Some((x, pos + 2)) } else { None }
    } else if p % 4 == 2 {
        if data.len() - pos < 4 {
            return None;
        }
        let b1: u8 = data[pos + 1];
        let b2: u8 = data[pos + 2];
        let b3: u8 = data[pos + 3];
        assert(b[1] == b1 && b[2] == b2 && b[3] == b3);
        let whole: u64 = p as u64 + 256 * (b1 as u64) + 65536 * (b2 as u64) + 16777216 * (b3 as u64);
        let x: u64 = whole / 4;
        if 16384 <= x { Some((x as u32, pos + 4)) } else { None }
    } else if p / 4 == 0 {
        if data.len() - pos < 5 {
            return None;
        }
        let b1: u8 = data[pos + 1];
        let b2: u8 = data[pos + 2];
        let b3: u8 = data[pos + 3];
        let b4: u8 = data[pos + 4];
        assert(b[1] == b1 && b[2] == b2 && b[3] == b3 && b[4] == b4);
        let x: u64 = b1 as u64 + 256 * (b2 as u64) + 65536 * (b3 as u64) + 16777216 * (b4 as u64);
        if 1073741824 <= x { Some((x as u32, pos + 5)) } else { None }
    } else {
        None
    }
}


/// Appending one item to a list appends its encoding.
pub proof fn lemma_enc_items_push<T>(xs: Seq<T>, x: T, enc: spec_fn(T) -> Seq<u8>)
    ensures
        enc_items(xs.push(x), enc) == enc_items(xs, enc) + enc(x),
    decreases xs.len(),
{
    if xs.len() == 0 {
        assert(xs.push(x).drop_first() =~= Seq::<T>::empty());
        assert(xs.push(x)[0] == x);
        assert(enc_items(Seq::<T>::empty(), enc) == Seq::<u8>::empty());
        assert(enc_items(xs, enc) == Seq::<u8>::empty());
        assert(enc_items(xs.push(x), enc) =~= enc(x) + Seq::<u8>::empty());
    } else {
        assert(xs.push(x).drop_first() =~= xs.drop_first().push(x));
        lemma_enc_items_push(xs.drop_first(), x, enc);
        assert(enc_items(xs.push(x), enc) =~= enc_items(xs, enc) + enc(x));
    }
}

/// Appends `bytes` to `out`.
fn write_raw(bytes: &[u8], out: &mut Vec<u8>)
    ensures
        final(out)@ == old(out)@ + bytes@,
{
    let mut i: usize = 0;
    while i < bytes.len()
        invariant
            i <= bytes@.len(),
            out@ == old(out)@ + bytes@.take(i as int),
        decreases bytes@.len() - i,
    {
        out.push(bytes[i]);
        i = i + 1;
        assert(out@ =~= old(out)@ + bytes@.take(i as int));
    }
    assert(bytes@.take(bytes@.len() as int) =~= bytes@);
}

/// Appends a length-prefixed byte string.
pub fn write_bytes(bytes: &[u8], out: &mut Vec<u8>)
    requires
        fits_u32(bytes@.len() as int),
    ensures
        final(out)@ == old(out)@ + enc_bytes(bytes@),
{
    write_compact(bytes.len() as u32, out);
    write_raw(bytes, out);
    assert(final(out)@ =~= old(out)@ + enc_bytes(bytes@));
}

/// Appends a shard name as length-prefixed UTF-8 text.
pub fn write_shard_name(shard: &Shard, out: &mut Vec<u8>)
    requires
        fits_u32(encode_utf8(shard@).len() as int),
    ensures
        final(out)@ == old(out)@ + enc_str(shard@),
{
    let bytes = shard.id().as_bytes();
    write_bytes(bytes, out);
}

/// Appends a list of shard names.
pub fn write_shard_names(shards: &Vec<Shard>, out: &mut Vec<u8>)
    requires
        fits_u32(shards@.len() as int),
        forall|i: int| 0 <= i < shards@.len() ==> fits_u32(#[trigger] encode_utf8(shards@[i]@).len() as int),
    ensures
        final(out)@ == old(out)@ + enc_list(shard_names(shards@), str_encoder()),
{
    let ghost names = shard_names(shards@);
    write_compact(shards.len() as u32, out);
    let ghost start = out@;
    let mut i: usize = 0;
    while i < shards.len()
        invariant
            i <= shards@.len(),
            names == shard_names(shards@),
            forall|j: int| 0 <= j < shards@.len() ==> fits_u32(#[trigger] encode_utf8(shards@[j]@).len() as int),
            out@ == start + enc_items(names.take(i as int), str_encoder()),
        decreases shards@.len() - i,
    {
        write_shard_name(&shards[i], out);
        proof {
            assert(names.take(i + 1) =~= names.take(i as int).push(names[i as int]));
            lemma_enc_items_push(names.take(i as int), names[i as int], str_encoder());
        }
        i = i + 1;
    }
    assert(names.take(shards@.len() as int) =~= names);
    assert(final(out)@ =~= old(out)@ + enc_list(names, str_encoder()));
}

/// Appends the encoding of a message.
pub fn write_message(m: &ShardsMessage, out: &mut Vec<u8>)
    requires
        message_fits(m@),
    ensures
        final(out)@ == old(out)@ + enc_message(m@),
{
    write_bytes(m.source.as_slice(), out);
    write_bytes(m.data.as_slice(), out);
    write_bytes(m.sequence_number.as_slice(), out);
    assert forall|i: int| 0 <= i < m.shards@.len() implies fits_u32(#[trigger] encode_utf8(m.shards@[i]@).len() as int) by {
        assert(m@.shards[i] == m.shards@[i]@);
    }
    write_shard_names(&m.shards, out);
    assert(final(out)@ =~= old(out)@ + enc_message(m@));
}

/// Whether a length fits a compact prefix.
fn len_fits(n: usize) -> (r: bool)
    ensures
        r == fits_u32(n as int),
{
    n as u64 <= 0xffff_ffffu64
}

/// Whether every name in the list, and the list's length, fit a compact prefix.
fn names_fit(shards: &Vec<Shard>) -> (r: bool)
    ensures
        r == (fits_u32(shards@.len() as int)
            && forall|i: int| 0 <= i < shards@.len() ==> fits_u32(#[trigger] encode_utf8(shards@[i]@).len() as int)),
{
    if !len_fits(shards.len()) {
        return false;
    }
    let mut i: usize = 0;
    while i < shards.len()
        invariant
            i <= shards@.len(),
            forall|j: int| 0 <= j < i ==> fits_u32(#[trigger] encode_utf8(shards@[j]@).len() as int),
        decreases shards@.len() - i,
    {
        if !len_fits(shards[i].id().as_bytes().len()) {
            return false;
        }
        i = i + 1;
    }
    true
}

/// Whether every length in the message fits a compact prefix.
pub fn message_can_encode(m: &ShardsMessage) -> (r: bool)
    ensures
        r == message_fits(m@),
{
    let ok = len_fits(m.source.len()) && len_fits(m.data.len()) && len_fits(m.sequence_number.len())
        && names_fit(&m.shards);
    assert forall|i: int| 0 <= i < m.shards@.len() implies m@.shards[i] == #[trigger] m.shards@[i]@ by {}
    ok
}

/// Whether every length in the RPC fits a compact prefix, that is, whether
/// it can be encoded.
pub fn rpc_can_encode(rpc: &Rpc) -> (r: bool)
    ensures
        r == rpc_fits(rpc@),
{
    if !len_fits(rpc.messages.len()) || !len_fits(rpc.shards.len()) {
        return false;
    }
    let mut i: usize = 0;
    while i < rpc.messages.len()
        invariant
            i <= rpc.messages@.len(),
            forall|j: int| 0 <= j < i ==> message_fits(#[trigger] rpc@.messages[j]),
        decreases rpc.messages@.len() - i,
    {
        if !message_can_encode(&rpc.messages[i]) {
            assert(!message_fits(rpc@.messages[i as int]));
            return false;
        }
        i = i + 1;
    }
    let mut k: usize = 0;
    while k < rpc.shards.len()
        invariant
            k <= rpc.shards@.len(),
            forall|j: int| 0 <= j < k ==> fits_u32(#[trigger] encode_utf8(rpc@.shards[j].shard).len() as int),
        decreases rpc.shards@.len() - k,
    {
        if !len_fits(rpc.shards[k].shard.id().as_bytes().len()) {
            assert(rpc@.shards[k as int].shard == rpc.shards@[k as int].shard@);
            return false;
        }
        k = k + 1;
    }
    true
}

/// Appends the encoding of a join notice.
pub fn write_join(j: &ShardsJoin, out: &mut Vec<u8>)
    requires
        fits_u32(encode_utf8(j@.shard).len() as int),
    ensures
        final(out)@ == old(out)@ + enc_join(j@),
{
    let tag: u8 = match j.action {
        ShardsAction::Join => 0,
        ShardsAction::Leave => 1,
    };
    out.push(tag);
    write_shard_name(&j.shard, out);
    assert(final(out)@ =~= old(out)@ + enc_join(j@));
}

/// Appends the encoding of an RPC.
pub fn write_rpc(rpc: &Rpc, out: &mut Vec<u8>)
    requires
        rpc_fits(rpc@),
    ensures
        final(out)@ == old(out)@ + enc_rpc(rpc@),
{
    let ghost ms = message_models(rpc.messages@);
    let ghost js = join_models(rpc.shards@);
    write_compact(rpc.messages.len() as u32, out);
    let ghost start = out@;
    let mut i: usize = 0;
    while i < rpc.messages.len()
        invariant
            i <= rpc.messages@.len(),
            ms == message_models(rpc.messages@),
            rpc_fits(rpc@),
            out@ == start + enc_items(ms.take(i as int), message_encoder()),
        decreases rpc.messages@.len() - i,
    {
        assert(ms[i as int] == rpc@.messages[i as int]);
        write_message(&rpc.messages[i], out);
        proof {
            assert(ms.take(i + 1) =~= ms.take(i as int).push(ms[i as int]));
            lemma_enc_items_push(ms.take(i as int), ms[i as int], message_encoder());
        }
        i = i + 1;
    }
    assert(ms.take(rpc.messages@.len() as int) =~= ms);
    let ghost mid = out@;
    assert(mid == old(out)@ + enc_list(ms, message_encoder()));
    write_compact(rpc.shards.len() as u32, out);
    let ghost start2 = out@;
    let mut i: usize = 0;
    while i < rpc.shards.len()
        invariant
            i <= rpc.shards@.len(),
            js == join_models(rpc.shards@),
            rpc_fits(rpc@),
            out@ == start2 + enc_items(js.take(i as int), join_encoder()),
        decreases rpc.shards@.len() - i,
    {
        assert(js[i as int] == rpc@.shards[i as int]);
        write_join(&rpc.shards[i], out);
        proof {
            assert(js.take(i + 1) =~= js.take(i as int).push(js[i as int]));
            lemma_enc_items_push(js.take(i as int), js[i as int], join_encoder());
        }
        i = i + 1;
    }
    assert(js.take(rpc.shards@.len() as int) =~= js);
    match rpc.ttl {
        None => {
            out.push(0u8);
        },
        Some(v) => {
            out.push(1u8);
            out.push(v);
        },
    }
    assert(final(out)@ =~= old(out)@ + enc_rpc(rpc@));
}


/// `String::from_utf8`: the text whose UTF-8 encoding is `bytes`, or nothing
/// when `bytes` is not valid UTF-8.
#[verifier::external_body]
fn string_from_utf8(bytes: Vec<u8>) -> (r: Option<String>)
    ensures
        r is Some <==> valid_utf8(bytes@),
        r matches Some(s) ==> s@ == decode_utf8(bytes@),
{
    String::from_utf8(bytes).ok()
}

/// Copies `n` bytes starting at `pos`.
fn read_raw(data: &[u8], pos: usize, n: usize) -> (r: Vec<u8>)
    requires
        pos + n <= data@.len(),
    ensures
        r@ == data@.subrange(pos as int, pos + n),
{
    let len = data.len();
    let mut r: Vec<u8> = Vec::new();
    let mut i: usize = 0;
    while i < n
        invariant
            i <= n,
            len == data@.len(),
            pos + n <= data@.len(),
            r@ == data@.subrange(pos as int, pos + i),
        decreases n - i,
    {
        assert(pos + i < data@.len());
        r.push(data[pos + i]);
        i = i + 1;
        assert(r@ =~= data@.subrange(pos as int, pos + i));
    }
    r
}

/// Reads a length-prefixed byte string at `pos`.
pub fn read_bytes(data: &[u8], pos: usize) -> (r: Option<(Vec<u8>, usize)>)
    requires
        pos <= data@.len(),
    ensures
        r matches Some((_, p)) ==> pos <= p <= data@.len(),
        match parse_bytes(data@.skip(pos as int)) {
            None => r is None,
            Some((s, k)) => r matches Some((v, p)) && v@ == s && p == pos + k,
        },
{
    let ghost b = data@.skip(pos as int);
    match read_compact(data, pos) {
        None => None,
        Some((n, p)) => {
            let n: usize = n as usize;
            if n > data.len() - p {
                return None;
            }
            let v = read_raw(data, p, n);
            assert(b.subrange(p - pos, p - pos + n) =~= data@.subrange(p as int, p + n));
            Some((v, p + n))
        },
    }
}

/// Reads a length-prefixed UTF-8 text at `pos`.
pub fn read_str(data: &[u8], pos: usize) -> (r: Option<(String, usize)>)
    requires
        pos <= data@.len(),
    ensures
        r matches Some((_, p)) ==> pos <= p <= data@.len(),
        match parse_str(data@.skip(pos as int)) {
            None => r is None,
            Some((c, k)) => r matches Some((v, p)) && v@ == c && p == pos + k,
        },
{
    reveal(parse_str);
    match read_bytes(data, pos) {
        None => None,
        Some((v, p)) => match string_from_utf8(v) {
            None => None,
            Some(s) => Some((s, p)),
        },
    }
}

/// Reads a list of shard names at `pos`.
pub fn read_shard_names(data: &[u8], pos: usize) -> (r: Option<(Vec<Shard>, usize)>)
    requires
        pos <= data@.len(),
    ensures
        r matches Some((_, p)) ==> pos <= p <= data@.len(),
        match parse_list(data@.skip(pos as int), str_parser()) {
            None => r is None,
            Some((xs, k)) => r matches Some((v, p)) && shard_names(v@) == xs && p == pos + k,
        },
{
    reveal(parse_list);
    let (n, start) = match read_compact(data, pos) {
        None => return None,
        Some(x) => x,
    };
    assert(data@.skip(pos as int).skip(start - pos) =~= data@.skip(start as int));
    let ghost whole = parse_items(n as nat, data@.skip(start as int), str_parser());
    let mut acc: Vec<Shard> = Vec::new();
    let mut p: usize = start;
    let mut i: u32 = 0;
    while i < n
        invariant
            start <= p <= data@.len(),
            i <= n,
            whole == parse_items(n as nat, data@.skip(start as int), str_parser()),
            pos <= start,
            parse_list(data@.skip(pos as int), str_parser()) == match whole {
                None => None,
                Some((xs, k)) => Some((xs, (start - pos) + k)),
            },
            whole == match parse_items((n - i) as nat, data@.skip(p as int), str_parser()) {
                None => None,
                Some((xs, k)) => Some((shard_names(acc@) + xs, (p - start) + k)),
            },
        decreases n - i,
    {
        match read_str(data, p) {
            None => {
                assert(str_parser()(data@.skip(p as int)) is None);
                assert(parse_items((n - i) as nat, data@.skip(p as int), str_parser()) is None);
                return None;
            },
            Some((s, q)) => {
                let ghost prev = acc@;
                assert(data@.skip(p as int).skip(q - p) =~= data@.skip(q as int));
                acc.push(Shard::from_string(s));
                assert(shard_names(acc@) =~= shard_names(prev).push(s@));
                assert(seq![s@] + Seq::<Seq<char>>::empty() =~= seq![s@]);
                proof {
                    let tail = parse_items((n - i - 1) as nat, data@.skip(q as int), str_parser());
                    match tail {
                        None => {},
                        Some((xs, k)) => {
                            assert(shard_names(prev) + (seq![s@] + xs) =~= shard_names(acc@) + xs);
                        },
                    }
                }
                p = q;
                i = i + 1;
            },
        }
    }
    assert(shard_names(acc@) + Seq::<Seq<char>>::empty() =~= shard_names(acc@));
    Some((acc, p))
}

/// Reads a message at `pos`.
#[verifier::spinoff_prover]
#[verifier::rlimit(40)]
pub fn read_message(data: &[u8], pos: usize) -> (r: Option<(ShardsMessage, usize)>)
    requires
        pos <= data@.len(),
    ensures
        r matches Some((_, p)) ==> pos <= p <= data@.len(),
        match parse_message(data@.skip(pos as int)) {
            None => r is None,
            Some((m, k)) => r matches Some((v, p)) && v@ == m && p == pos + k,
        },
{
    reveal(parse_message);
    let ghost b = data@.skip(pos as int);
    let (source, p1) = match read_bytes(data, pos) {
        None => return None,
        Some(x) => x,
    };
    assert(parse_bytes(b) == Some((source@, p1 - pos)));
    assert(b.skip(p1 - pos) =~= data@.skip(p1 as int));
    let (payload, p2) = match read_bytes(data, p1) {
        None => return None,
        Some(x) => x,
    };
    assert(parse_bytes(b.skip(p1 - pos)) == Some((payload@, p2 - p1)));
    assert(b.skip((p1 - pos) + (p2 - p1)) =~= data@.skip(p2 as int));
    let (sequence_number, p3) = match read_bytes(data, p2) {
        None => return None,
        Some(x) => x,
    };
    assert(parse_bytes(b.skip((p1 - pos) + (p2 - p1))) == Some((sequence_number@, p3 - p2)));
    assert(b.skip((p1 - pos) + (p2 - p1) + (p3 - p2)) =~= data@.skip(p3 as int));
    let (shards, p4) = match read_shard_names(data, p3) {
        None => return None,
        Some(x) => x,
    };
    Some((ShardsMessage { source, data: payload, sequence_number, shards }, p4))
}

/// Reads a join notice at `pos`.
pub fn read_join(data: &[u8], pos: usize) -> (r: Option<(ShardsJoin, usize)>)
    requires
        pos <= data@.len(),
    ensures
        r matches Some((_, p)) ==> pos <= p <= data@.len(),
        match parse_join(data@.skip(pos as int)) {
            None => r is None,
            Some((j, k)) => r matches Some((v, p)) && v@ == j && p == pos + k,
        },
{
    reveal(parse_join);
    let ghost b = data@.skip(pos as int);
    if pos >= data.len() {
        return None;
    }
    let tag: u8 = data[pos];
    assert(b[0] == tag);
    let action = if tag == 0 {
        ShardsAction::Join
    } else if tag == 1 {
        ShardsAction::Leave
    } else {
        return None;
    };
    assert(b.skip(1) =~= data@.skip(pos + 1));
    match read_str(data, pos + 1) {
        None => None,
        Some((s, p)) => Some((ShardsJoin { action, shard: Shard::from_string(s) }, p)),
    }
}

/// Reads a list of messages at `pos`.
pub fn read_messages(data: &[u8], pos: usize) -> (r: Option<(Vec<ShardsMessage>, usize)>)
    requires
        pos <= data@.len(),
    ensures
        r matches Some((_, p)) ==> pos <= p <= data@.len(),
        match parse_list(data@.skip(pos as int), message_parser()) {
            None => r is None,
            Some((xs, k)) => r matches Some((v, p)) && message_models(v@) == xs && p == pos + k,
        },
{
    reveal(parse_list);
    let (n, start) = match read_compact(data, pos) {
        None => return None,
        Some(x) => x,
    };
    assert(data@.skip(pos as int).skip(start - pos) =~= data@.skip(start as int));
    let ghost whole = parse_items(n as nat, data@.skip(start as int), message_parser());
    let mut acc: Vec<ShardsMessage> = Vec::new();
    let mut p: usize = start;
    let mut i: u32 = 0;
    while i < n
        invariant
            start <= p <= data@.len(),
            i <= n,
            whole == parse_items(n as nat, data@.skip(start as int), message_parser()),
            pos <= start,
            parse_list(data@.skip(pos as int), message_parser()) == match whole {
                None => None,
                Some((xs, k)) => Some((xs, (start - pos) + k)),
            },
            whole == match parse_items((n - i) as nat, data@.skip(p as int), message_parser()) {
                None => None,
                Some((xs, k)) => Some((message_models(acc@) + xs, (p - start) + k)),
            },
        decreases n - i,
    {
        match read_message(data, p) {
            None => {
                assert(message_parser()(data@.skip(p as int)) is None);
                assert(parse_items((n - i) as nat, data@.skip(p as int), message_parser()) is None);
                return None;
            },
            Some((m, q)) => {
                let ghost prev = acc@;
                let ghost mm = m@;
                assert(data@.skip(p as int).skip(q - p) =~= data@.skip(q as int));
                acc.push(m);
                assert(message_models(acc@) =~= message_models(prev).push(mm));
                proof {
                    let tail = parse_items((n - i - 1) as nat, data@.skip(q as int), message_parser());
                    match tail {
                        None => {},
                        Some((xs, k)) => {
                            assert(message_models(prev) + (seq![mm] + xs) =~= message_models(acc@) + xs);
                        },
                    }
                }
                p = q;
                i = i + 1;
            },
        }
    }
    assert(message_models(acc@) + Seq::<MessageModel>::empty() =~= message_models(acc@));
    Some((acc, p))
}

/// Reads a list of join notices at `pos`.
pub fn read_joins(data: &[u8], pos: usize) -> (r: Option<(Vec<ShardsJoin>, usize)>)
    requires
        pos <= data@.len(),
    ensures
        r matches Some((_, p)) ==> pos <= p <= data@.len(),
        match parse_list(data@.skip(pos as int), join_parser()) {
            None => r is None,
            Some((xs, k)) => r matches Some((v, p)) && join_models(v@) == xs && p == pos + k,
        },
{
    reveal(parse_list);
    let (n, start) = match read_compact(data, pos) {
        None => return None,
        Some(x) => x,
    };
    assert(data@.skip(pos as int).skip(start - pos) =~= data@.skip(start as int));
    let ghost whole = parse_items(n as nat, data@.skip(start as int), join_parser());
    let mut acc: Vec<ShardsJoin> = Vec::new();
    let mut p: usize = start;
    let mut i: u32 = 0;
    while i < n
        invariant
            start <= p <= data@.len(),
            i <= n,
            whole == parse_items(n as nat, data@.skip(start as int), join_parser()),
            pos <= start,
            parse_list(data@.skip(pos as int), join_parser()) == match whole {
                None => None,
                Some((xs, k)) => Some((xs, (start - pos) + k)),
            },
            whole == match parse_items((n - i) as nat, data@.skip(p as int), join_parser()) {
                None => None,
                Some((xs, k)) => Some((join_models(acc@) + xs, (p - start) + k)),
            },
        decreases n - i,
    {
        match read_join(data, p) {
            None => {
                assert(join_parser()(data@.skip(p as int)) is None);
                assert(parse_items((n - i) as nat, data@.skip(p as int), join_parser()) is None);
                return None;
            },
            Some((j, q)) => {
                let ghost prev = acc@;
                let ghost jm = j@;
                assert(data@.skip(p as int).skip(q - p) =~= data@.skip(q as int));
                acc.push(j);
                assert(join_models(acc@) =~= join_models(prev).push(jm));
                proof {
                    let tail = parse_items((n - i - 1) as nat, data@.skip(q as int), join_parser());
                    match tail {
                        None => {},
                        Some((xs, k)) => {
                            assert(join_models(prev) + (seq![jm] + xs) =~= join_models(acc@) + xs);
                        },
                    }
                }
                p = q;
                i = i + 1;
            },
        }
    }
    assert(join_models(acc@) + Seq::<JoinModel>::empty() =~= join_models(acc@));
    Some((acc, p))
}

/// Reads an RPC from the front of `data`; bytes after it are ignored. On
/// success, also gives the number of bytes it took.
pub fn read_rpc(data: &[u8]) -> (r: Option<(Rpc, usize)>)
    ensures
        match parse_rpc(data@) {
            None => r is None,
            Some((m, k)) => r matches Some((v, p)) && v@ == m && p == k,
        },
{
    assert(data@.skip(0) =~= data@);
    let (messages, p1) = match read_messages(data, 0) {
        None => return None,
        Some(x) => x,
    };
    let (shards, p2) = match read_joins(data, p1) {
        None => return None,
        Some(x) => x,
    };
    let ghost b = data@.skip(p2 as int);
    if p2 >= data.len() {
        return None;
    }
    let tag: u8 = data[p2];
    assert(b[0] == tag);
    let (ttl, p3) = if tag == 0 {
        (None, p2 + 1)
    } else if tag == 1 {
        if data.len() - p2 < 2 {
            return None;
        }
        assert(b[1] == data@[p2 + 1]);
        (Some(data[p2 + 1]), p2 + 2)
    } else {
        return None;
    };
    Some((Rpc { messages, shards, ttl }, p3))
}

} // verus!
