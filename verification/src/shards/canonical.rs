//! The wire format has one encoding per value: whatever the readers accept
//! is, byte for byte, what the writers produce for the value read.
use vstd::arithmetic::div_mod::lemma_fundamental_div_mod_converse;
use vstd::prelude::*;
use vstd::utf8::*;

use crate::shards::protocol::{JoinModel, MessageModel, RpcModel};
use crate::shards::wire::{
    action_tag, compact_u32, enc_bytes, enc_items, enc_join, enc_list, enc_message, enc_rpc, enc_str, enc_ttl,
    fits_u32, join_encoder, join_parser, message_encoder, message_fits, message_parser, parse_bytes, parse_compact,
    parse_items, parse_join, parse_list, parse_message, parse_rpc, parse_str, parse_ttl, rpc_fits, str_encoder,
    str_parser,
};

verus! {

/// What `item` reads from the front of `b`, if anything, is a value that
/// satisfies `fits` and whose encoding is exactly the bytes read.
pub open spec fn reads_back<T>(
    item: spec_fn(Seq<u8>) -> Option<(T, int)>,
    enc: spec_fn(T) -> Seq<u8>,
    fits: spec_fn(T) -> bool,
    b: Seq<u8>,
) -> bool {
    match item(b) {
        None => true,
        Some((x, k)) => fits(x) && 0 <= k <= b.len() && enc(x) == b.take(k),
    }
}

proof fn lemma_digits2(p: int, b1: int)
    requires
        0 <= p < 256,
        0 <= b1 < 256,
    ensures
        (p + 256 * b1) % 256 == p,
        (p + 256 * b1) / 256 == b1,
{
    lemma_fundamental_div_mod_converse(p + 256 * b1, 256, b1, p);
}

proof fn lemma_digits4(b0: int, b1: int, b2: int, b3: int)
    requires
        0 <= b0 < 256,
        0 <= b1 < 256,
        0 <= b2 < 256,
        0 <= b3 < 256,
    ensures
        ({
            let v = b0 + 256 * b1 + 65536 * b2 + 16777216 * b3;
            &&& v % 256 == b0
            &&& (v / 256) % 256 == b1
            &&& (v / 65536) % 256 == b2
            &&& v / 16777216 == b3
        }),
{
    let v = b0 + 256 * b1 + 65536 * b2 + 16777216 * b3;
    lemma_fundamental_div_mod_converse(v, 256, b1 + 256 * b2 + 65536 * b3, b0);
    lemma_fundamental_div_mod_converse(b1 + 256 * b2 + 65536 * b3, 256, b2 + 256 * b3, b1);
    lemma_fundamental_div_mod_converse(v, 65536, b2 + 256 * b3, b0 + 256 * b1);
    lemma_fundamental_div_mod_converse(b2 + 256 * b3, 256, b3, b2);
    lemma_fundamental_div_mod_converse(v, 16777216, b3, b0 + 256 * b1 + 65536 * b2);
}

/// A compact length is read only from its own encoding.
pub proof fn lemma_compact_canonical(b: Seq<u8>)
    ensures
        parse_compact(b) matches Some((n, k)) ==> fits_u32(n as int) && 0 < k <= b.len() && compact_u32(n) == b.take(k),
{
    if b.len() >= 1 {
        let p = b[0] as int;
        if p % 4 == 0 {
            let n = p / 4;
            lemma_fundamental_div_mod_converse(p, 4, n, 0);
            assert(compact_u32(n as nat) =~= b.take(1));
        } else if p % 4 == 1 {
            if b.len() >= 2 {
                let b1 = b[1] as int;
                let v = p + 256 * b1;
                let x = v / 4;
                assert(v == x * 4 + 1) by {
                    lemma_fundamental_div_mod_converse(p, 4, p / 4, 1);
                    lemma_fundamental_div_mod_converse(v, 4, p / 4 + 64 * b1, 1);
                }
                if 64 <= x {
                    assert(x < 16384);
                    lemma_digits2(p, b1);
                    assert(compact_u32(x as nat) =~= b.take(2));
                }
            }
        } else if p % 4 == 2 {
            if b.len() >= 4 {
                let (b1, b2, b3) = (b[1] as int, b[2] as int, b[3] as int);
                let v = p + 256 * b1 + 65536 * b2 + 16777216 * b3;
                let x = v / 4;
                assert(v == x * 4 + 2) by {
                    lemma_fundamental_div_mod_converse(p, 4, p / 4, 2);
                    lemma_fundamental_div_mod_converse(v, 4, p / 4 + 64 * b1 + 16384 * b2 + 4194304 * b3, 2);
                }
                if 16384 <= x {
                    assert(x < 1073741824);
                    lemma_digits4(p, b1, b2, b3);
                    assert(compact_u32(x as nat) =~= b.take(4));
                }
            }
        } else if p / 4 == 0 {
            if b.len() >= 5 {
                let (b1, b2, b3, b4) = (b[1] as int, b[2] as int, b[3] as int, b[4] as int);
                let x = b1 + 256 * b2 + 65536 * b3 + 16777216 * b4;
                if 1073741824 <= x {
                    assert(p == 3);
                    lemma_digits4(b1, b2, b3, b4);
                    assert(compact_u32(x as nat) =~= b.take(5));
                }
            }
        }
    }
}

/// A byte string is read only from its own encoding.
pub proof fn lemma_bytes_canonical(b: Seq<u8>)
    ensures
        parse_bytes(b) matches Some((s, k)) ==> fits_u32(s.len() as int) && 0 <= k <= b.len() && enc_bytes(s) == b.take(k),
{
    lemma_compact_canonical(b);
    if let Some((n, k)) = parse_compact(b) {
        if k + n <= b.len() {
            let s = b.subrange(k, k + n);
            assert(b.take(k) + s =~= b.take(k + n));
        }
    }
}

/// A text is read only from its own encoding.
/// Reading a byte string gives the bytes that follow its compact length,
/// verbatim and in order: what was read is exactly that length followed by
/// the string.
pub proof fn law_read_bytes_verbatim(b: Seq<u8>)
    ensures
        parse_bytes(b) matches Some((s, k)) ==> b.take(k) == compact_u32(s.len()) + s
            && s == b.subrange(k - s.len(), k),
{
    lemma_bytes_canonical(b);
    if let Some((s, k)) = parse_bytes(b) {
        let c = compact_u32(s.len());
        assert(b.take(k) =~= c + s);
        assert(b.subrange(k - s.len(), k) =~= (c + s).subrange(c.len() as int, (c.len() + s.len()) as int));
        assert((c + s).subrange(c.len() as int, (c.len() + s.len()) as int) =~= s);
    }
}

pub proof fn lemma_str_canonical(b: Seq<u8>)
    ensures
        parse_str(b) matches Some((c, k)) ==> fits_u32(encode_utf8(c).len() as int) && 0 <= k <= b.len()
            && enc_str(c) == b.take(k),
{
    reveal(parse_str);
    lemma_bytes_canonical(b);
    if let Some((s, k)) = parse_bytes(b) {
        if valid_utf8(s) {
            decode_utf8_encode_utf8(s);
        }
    }
}

/// Items are read only from their own encodings, when each item is.
pub proof fn lemma_items_canonical<T>(
    count: nat,
    b: Seq<u8>,
    item: spec_fn(Seq<u8>) -> Option<(T, int)>,
    enc: spec_fn(T) -> Seq<u8>,
    fits: spec_fn(T) -> bool,
)
    requires
        forall|c: Seq<u8>| #[trigger] reads_back(item, enc, fits, c),
    ensures
        parse_items(count, b, item) matches Some((xs, k)) ==> xs.len() == count && 0 <= k <= b.len()
            && (forall|i: int| 0 <= i < xs.len() ==> #[trigger] fits(xs[i]))
            && enc_items(xs, enc) == b.take(k),
    decreases count,
{
    if count == 0 {
        assert(b.take(0) =~= Seq::<u8>::empty());
    } else {
        assert(reads_back(item, enc, fits, b));
        if let Some((x, k)) = item(b) {
            if 0 <= k <= b.len() {
                let rest = b.skip(k);
                lemma_items_canonical((count - 1) as nat, rest, item, enc, fits);
                if let Some((xs, k2)) = parse_items((count - 1) as nat, rest, item) {
                    let all = seq![x] + xs;
                    assert(all[0] == x);
                    assert(all.drop_first() =~= xs);
                    assert(enc_items(all, enc) == enc(x) + enc_items(xs, enc));
                    assert(b.take(k) + rest.take(k2) =~= b.take(k + k2));
                    assert forall|i: int| 0 <= i < all.len() implies #[trigger] fits(all[i]) by {
                        if i > 0 {
                            assert(all[i] == xs[i - 1]);
                        }
                    }
                }
            }
        }
    }
}

/// A list is read only from its own encoding, when each item is.
pub proof fn lemma_list_canonical<T>(
    b: Seq<u8>,
    item: spec_fn(Seq<u8>) -> Option<(T, int)>,
    enc: spec_fn(T) -> Seq<u8>,
    fits: spec_fn(T) -> bool,
)
    requires
        forall|c: Seq<u8>| #[trigger] reads_back(item, enc, fits, c),
    ensures
        parse_list(b, item) matches Some((xs, k)) ==> fits_u32(xs.len() as int) && 0 <= k <= b.len()
            && (forall|i: int| 0 <= i < xs.len() ==> #[trigger] fits(xs[i]))
            && enc_list(xs, enc) == b.take(k),
{
    reveal(parse_list);
    lemma_compact_canonical(b);
    if let Some((n, k)) = parse_compact(b) {
        let rest = b.skip(k);
        lemma_items_canonical(n, rest, item, enc, fits);
        if let Some((xs, k2)) = parse_items(n, rest, item) {
            assert(b.take(k) + rest.take(k2) =~= b.take(k + k2));
        }
    }
}

pub open spec fn str_fits() -> spec_fn(Seq<char>) -> bool {
    |c: Seq<char>| fits_u32(encode_utf8(c).len() as int)
}

pub open spec fn join_fits() -> spec_fn(JoinModel) -> bool {
    |j: JoinModel| fits_u32(encode_utf8(j.shard).len() as int)
}

pub open spec fn message_fits_fn() -> spec_fn(MessageModel) -> bool {
    |m: MessageModel| message_fits(m)
}

/// A list of shard names is read only from its own encoding.
pub proof fn lemma_names_canonical(b: Seq<u8>)
    ensures
        parse_list(b, str_parser()) matches Some((names, k)) ==> fits_u32(names.len() as int) && 0 <= k <= b.len()
            && (forall|i: int| 0 <= i < names.len() ==> fits_u32(#[trigger] encode_utf8(names[i]).len() as int))
            && enc_list(names, str_encoder()) == b.take(k),
{
    assert forall|c: Seq<u8>| #[trigger] reads_back(str_parser(), str_encoder(), str_fits(), c) by {
        lemma_str_canonical(c);
    }
    lemma_list_canonical(b, str_parser(), str_encoder(), str_fits());
    if let Some((names, k)) = parse_list(b, str_parser()) {
        assert forall|i: int| 0 <= i < names.len() implies fits_u32(#[trigger] encode_utf8(names[i]).len() as int) by {
            assert(str_fits()(names[i]));
        }
    }
}

/// Reading `k1` bytes and then `k2` more reads the first `k1 + k2` bytes.
proof fn lemma_take_then(b: Seq<u8>, k1: int, k2: int)
    requires
        0 <= k1,
        0 <= k2,
        k1 + k2 <= b.len(),
    ensures
        b.take(k1) + b.skip(k1).take(k2) == b.take(k1 + k2),
        b.skip(k1).skip(k2) == b.skip(k1 + k2),
{
    assert(b.take(k1) + b.skip(k1).take(k2) =~= b.take(k1 + k2));
    assert(b.skip(k1).skip(k2) =~= b.skip(k1 + k2));
}

/// A message is read only from its own encoding.
#[verifier::spinoff_prover]
pub proof fn lemma_message_canonical(b: Seq<u8>)
    ensures
        parse_message(b) matches Some((m, k)) ==> message_fits(m) && 0 <= k <= b.len() && enc_message(m) == b.take(k),
{
    reveal(parse_message);
    lemma_bytes_canonical(b);
    if let Some((source, k1)) = parse_bytes(b) {
        let b1 = b.skip(k1);
        lemma_bytes_canonical(b1);
        if let Some((data, k2)) = parse_bytes(b1) {
            lemma_take_then(b, k1, k2);
            let b2 = b.skip(k1 + k2);
            lemma_bytes_canonical(b2);
            if let Some((sequence_number, k3)) = parse_bytes(b2) {
                lemma_take_then(b, k1 + k2, k3);
                let b3 = b.skip(k1 + k2 + k3);
                lemma_names_canonical(b3);
                if let Some((shards, k4)) = parse_list(b3, str_parser()) {
                    lemma_take_then(b, k1 + k2 + k3, k4);
                    let m = MessageModel { source, data, sequence_number, shards };
                    assert(enc_message(m) == b.take(k1 + k2 + k3 + k4));
                }
            }
        }
    }
}

/// A join notice is read only from its own encoding.
pub proof fn lemma_join_canonical(b: Seq<u8>)
    ensures
        parse_join(b) matches Some((j, k)) ==> fits_u32(encode_utf8(j.shard).len() as int) && 0 <= k <= b.len()
            && enc_join(j) == b.take(k),
{
    reveal(parse_join);
    if b.len() >= 1 && b[0] <= 1 {
        let rest = b.skip(1);
        lemma_str_canonical(rest);
        if let Some((shard, k)) = parse_str(rest) {
            let action = if b[0] == 0 { crate::shards::protocol::ShardsAction::Join } else { crate::shards::protocol::ShardsAction::Leave };
            assert(action_tag(action) == b[0]);
            assert(seq![b[0]] + rest.take(k) =~= b.take(1 + k));
        }
    }
}

/// A hop count is read only from its own encoding.
pub proof fn lemma_ttl_canonical(b: Seq<u8>)
    ensures
        parse_ttl(b) matches Some((t, k)) ==> 0 <= k <= b.len() && enc_ttl(t) == b.take(k),
{
    if b.len() >= 1 {
        if b[0] == 0 {
            assert(enc_ttl(None) =~= b.take(1));
        } else if b[0] == 1 && b.len() >= 2 {
            assert(enc_ttl(Some(b[1])) =~= b.take(2));
        }
    }
}

/// An RPC is read only from its own encoding: a packet that decodes to an
/// RPC starts with exactly the bytes that encoding the RPC writes, so two
/// packets that decode to the same RPC agree on every byte that was read.
pub proof fn lemma_rpc_canonical(b: Seq<u8>)
    ensures
        parse_rpc(b) matches Some((r, k)) ==> rpc_fits(r) && 0 <= k <= b.len() && enc_rpc(r) == b.take(k),
{
    assert forall|c: Seq<u8>| #[trigger] reads_back(message_parser(), message_encoder(), message_fits_fn(), c) by {
        lemma_message_canonical(c);
    }
    assert forall|c: Seq<u8>| #[trigger] reads_back(join_parser(), join_encoder(), join_fits(), c) by {
        lemma_join_canonical(c);
    }
    lemma_list_canonical(b, message_parser(), message_encoder(), message_fits_fn());
    if let Some((messages, k1)) = parse_list(b, message_parser()) {
        let b1 = b.skip(k1);
        lemma_list_canonical(b1, join_parser(), join_encoder(), join_fits());
        if let Some((shards, k2)) = parse_list(b1, join_parser()) {
            assert(b.skip(k1 + k2) =~= b1.skip(k2));
            let b2 = b.skip(k1 + k2);
            lemma_ttl_canonical(b2);
            if let Some((ttl, k3)) = parse_ttl(b2) {
                let r = RpcModel { messages, shards, ttl };
                assert forall|i: int| 0 <= i < r.messages.len() implies message_fits(#[trigger] r.messages[i]) by {
                    assert(message_fits_fn()(messages[i]));
                }
                assert forall|i: int| 0 <= i < r.shards.len() implies fits_u32(#[trigger] encode_utf8(r.shards[i].shard).len() as int) by {
                    assert(join_fits()(shards[i]));
                }
                assert(b.take(k1) + b1.take(k2) + b2.take(k3) =~= b.take(k1 + k2 + k3));
            }
        }
    }
}

} // verus!
