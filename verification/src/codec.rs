//! Deterministic binary serialization of the wire message set.
//!
//! Every outbound frame is produced by [`encode_message`] and every inbound
//! frame is read by [`decode_message`]. The format is a tag byte followed by
//! the variant's fields: unsigned integers little-endian by byte, signed
//! integers in offset-binary form, strings as a character count followed by
//! one scalar value per character. Decoding a malformed or unknown-tag frame
//! returns `None` and nothing else; decoding an encoded frame returns the
//! frame ([`lemma_decode_encode`]).

use vstd::prelude::*;
use vstd::utf8::{char_is_scalar, char_u32_cast, is_scalar};

use crate::messages::{MessageModel, SystemMessages};
use crate::types::{Coordinate, Monument, MonumentModel, PlayerData, PlayerId};

verus! {

// ---------------------------------------------------------------------------
// Specification of the encoding, value by value.
// ---------------------------------------------------------------------------

/// The four little-endian bytes of a 32-bit value.
pub open spec fn enc_u32(v: u32) -> Seq<u8> {
    seq![
        (v % 256) as u8,
        ((v / 256) % 256) as u8,
        ((v / 256 / 256) % 256) as u8,
        ((v / 256 / 256 / 256) % 256) as u8,
    ]
}

/// The eight little-endian bytes of a 64-bit value.
pub open spec fn enc_u64(v: u64) -> Seq<u8> {
    seq![
        (v % 256) as u8,
        ((v / 256) % 256) as u8,
        ((v / 256 / 256) % 256) as u8,
        ((v / 256 / 256 / 256) % 256) as u8,
        ((v / 256 / 256 / 256 / 256) % 256) as u8,
        ((v / 256 / 256 / 256 / 256 / 256) % 256) as u8,
        ((v / 256 / 256 / 256 / 256 / 256 / 256) % 256) as u8,
        ((v / 256 / 256 / 256 / 256 / 256 / 256 / 256) % 256) as u8,
    ]
}

/// A signed 32-bit value in offset-binary form: shifted up by `2^31` so the
/// byte layout needs no sign handling.
pub open spec fn enc_i32(v: i32) -> Seq<u8> {
    enc_u32((v + 0x8000_0000) as u32)
}

/// A boolean as one byte, `0` or `1`.
pub open spec fn enc_bool(b: bool) -> Seq<u8> {
    if b {
        seq![1u8]
    } else {
        seq![0u8]
    }
}

// ---------------------------------------------------------------------------
// Specification of the decoding: each parser consumes from the front of the
// byte sequence and returns the value with the remainder, or nothing.
// ---------------------------------------------------------------------------

/// Reads one byte.
pub open spec fn dec_u8(s: Seq<u8>) -> Option<(u8, Seq<u8>)> {
    if s.len() >= 1 {
        Some((s[0], s.skip(1)))
    } else {
        None
    }
}

/// Reads a 32-bit value from four little-endian bytes.
pub open spec fn dec_u32(s: Seq<u8>) -> Option<(u32, Seq<u8>)> {
    if s.len() >= 4 {
        Some(
            (
                (s[0] + 256 * (s[1] + 256 * (s[2] + 256 * (s[3] as int)))) as u32,
                s.skip(4),
            ),
        )
    } else {
        None
    }
}

/// Reads a 64-bit value from eight little-endian bytes.
pub open spec fn dec_u64(s: Seq<u8>) -> Option<(u64, Seq<u8>)> {
    if s.len() >= 8 {
        Some(
            (
                (s[0] + 256 * (s[1] + 256 * (s[2] + 256 * (s[3] + 256 * (s[4] + 256 * (s[5] + 256
                    * (s[6] + 256 * (s[7] as int)))))))) as u64,
                s.skip(8),
            ),
        )
    } else {
        None
    }
}

/// Reads a signed 32-bit value written in offset-binary form.
pub open spec fn dec_i32(s: Seq<u8>) -> Option<(i32, Seq<u8>)> {
    match dec_u32(s) {
        Some((u, rest)) => Some(((u - 0x8000_0000) as i32, rest)),
        None => None,
    }
}

/// Reads a boolean byte; any byte other than `0` or `1` is malformed.
pub open spec fn dec_bool(s: Seq<u8>) -> Option<(bool, Seq<u8>)> {
    match dec_u8(s) {
        Some((b, rest)) => if b == 0 {
            Some((false, rest))
        } else if b == 1 {
            Some((true, rest))
        } else {
            None
        },
        None => None,
    }
}

// ---------------------------------------------------------------------------
// Round trips of the primitive values.
// ---------------------------------------------------------------------------

/// Decoding the four bytes of a 32-bit value, with anything after them,
/// yields the value and leaves the rest.
pub proof fn lemma_dec_enc_u32(v: u32, rest: Seq<u8>)
    ensures
        dec_u32(enc_u32(v) + rest) == Some((v, rest)),
{
    let s = enc_u32(v) + rest;
    assert(s.len() >= 4);
    assert(s[0] == (v % 256) as u8);
    assert(s[1] == ((v / 256) % 256) as u8);
    assert(s[2] == ((v / 256 / 256) % 256) as u8);
    assert(s[3] == ((v / 256 / 256 / 256) % 256) as u8);
    assert(v / 256 / 256 / 256 < 256);
    assert((s[0] + 256 * (s[1] + 256 * (s[2] + 256 * (s[3] as int)))) as u32 == v);
    assert(s.skip(4) =~= rest);
}

/// Decoding the eight bytes of a 64-bit value, with anything after them,
/// yields the value and leaves the rest.
pub proof fn lemma_dec_enc_u64(v: u64, rest: Seq<u8>)
    ensures
        dec_u64(enc_u64(v) + rest) == Some((v, rest)),
{
    let s = enc_u64(v) + rest;
    assert(s.len() >= 8);
    assert(v / 256 / 256 / 256 / 256 / 256 / 256 / 256 < 256);
    assert((s[0] + 256 * (s[1] + 256 * (s[2] + 256 * (s[3] + 256 * (s[4] + 256 * (s[5] + 256 * (
    s[6] + 256 * (s[7] as int)))))))) as u64 == v);
    assert(s.skip(8) =~= rest);
}

/// Round trip of the offset-binary form of a signed 32-bit value.
pub proof fn lemma_dec_enc_i32(v: i32, rest: Seq<u8>)
    ensures
        dec_i32(enc_i32(v) + rest) == Some((v, rest)),
{
    let u = (v + 0x8000_0000) as u32;
    lemma_dec_enc_u32(u, rest);
    assert((u - 0x8000_0000) as i32 == v);
}

/// Round trip of the boolean byte.
pub proof fn lemma_dec_enc_bool(b: bool, rest: Seq<u8>)
    ensures
        dec_bool(enc_bool(b) + rest) == Some((b, rest)),
{
    let s = enc_bool(b) + rest;
    assert(s[0] == if b { 1u8 } else { 0u8 });
    assert(s.skip(1) =~= rest);
}

// ---------------------------------------------------------------------------
// Strings: a character count followed by one 32-bit scalar per character.
// ---------------------------------------------------------------------------

/// The scalar values of a character sequence, four bytes each.
pub open spec fn enc_chars(s: Seq<char>) -> Seq<u8>
    decreases s.len(),
{
    if s.len() == 0 {
        Seq::empty()
    } else {
        enc_u32(s[0] as u32) + enc_chars(s.skip(1))
    }
}

/// A string: its character count, then its characters.
pub open spec fn enc_string(s: Seq<char>) -> Seq<u8> {
    enc_u64(s.len() as u64) + enc_chars(s)
}

/// Reads `n` characters; a 32-bit value that is not a Unicode scalar is
/// malformed.
pub open spec fn dec_chars(s: Seq<u8>, n: nat) -> Option<(Seq<char>, Seq<u8>)>
    decreases n,
{
    if n == 0 {
        Some((Seq::empty(), s))
    } else {
        match dec_u32(s) {
            Some((u, rest)) => if is_scalar(u) {
                match dec_chars(rest, (n - 1) as nat) {
                    Some((cs, rest2)) => Some((seq![u as char] + cs, rest2)),
                    None => None,
                }
            } else {
                None
            },
            None => None,
        }
    }
}

/// Reads a string: its character count, then its characters.
pub open spec fn dec_string(s: Seq<u8>) -> Option<(Seq<char>, Seq<u8>)> {
    match dec_u64(s) {
        Some((n, rest)) => dec_chars(rest, n as nat),
        None => None,
    }
}

/// Round trip of a character sequence of known count.
pub proof fn lemma_dec_enc_chars(s: Seq<char>, rest: Seq<u8>)
    ensures
        dec_chars(enc_chars(s) + rest, s.len()) == Some((s, rest)),
    decreases s.len(),
{
    if s.len() == 0 {
        assert(enc_chars(s) + rest =~= rest);
    } else {
        let c = s[0];
        let tail = s.skip(1);
        assert(enc_chars(s) + rest =~= enc_u32(c as u32) + (enc_chars(tail) + rest));
        lemma_dec_enc_u32(c as u32, enc_chars(tail) + rest);
        char_is_scalar(c);
        char_u32_cast(c, c as u32);
        lemma_dec_enc_chars(tail, rest);
        assert(seq![(c as u32) as char] + tail =~= s);
    }
}

/// Round trip of a string whose count fits the length field.
pub proof fn lemma_dec_enc_string(s: Seq<char>, rest: Seq<u8>)
    requires
        s.len() <= u64::MAX,
    ensures
        dec_string(enc_string(s) + rest) == Some((s, rest)),
{
    assert(enc_string(s) + rest =~= enc_u64(s.len() as u64) + (enc_chars(s) + rest));
    lemma_dec_enc_u64(s.len() as u64, enc_chars(s) + rest);
    assert((s.len() as u64) as nat == s.len());
    lemma_dec_enc_chars(s, rest);
}

// ---------------------------------------------------------------------------
// The composite values carried by frames.
// ---------------------------------------------------------------------------

/// A coordinate: both axes in offset-binary form.
pub open spec fn enc_coordinate(c: Coordinate) -> Seq<u8> {
    enc_i32(c.x) + enc_i32(c.y)
}

/// Reads a coordinate.
pub open spec fn dec_coordinate(s: Seq<u8>) -> Option<(Coordinate, Seq<u8>)> {
    match dec_i32(s) {
        Some((x, rest)) => match dec_i32(rest) {
            Some((y, rest2)) => Some((Coordinate { x, y }, rest2)),
            None => None,
        },
        None => None,
    }
}

/// A player record: identity, balance, position.
pub open spec fn enc_player_data(d: PlayerData) -> Seq<u8> {
    enc_u32(d.id.0) + enc_u32(d.balance) + enc_coordinate(d.position)
}

/// Reads a player record.
pub open spec fn dec_player_data(s: Seq<u8>) -> Option<(PlayerData, Seq<u8>)> {
    match dec_u32(s) {
        Some((id, rest)) => match dec_u32(rest) {
            Some((balance, rest2)) => match dec_coordinate(rest2) {
                Some((position, rest3)) => Some(
                    (PlayerData { id: PlayerId(id), balance, position }, rest3),
                ),
                None => None,
            },
            None => None,
        },
        None => None,
    }
}

/// A monument: identity, asset, description, position, construction flag.
pub open spec fn enc_monument(m: MonumentModel) -> Seq<u8> {
    enc_u32(m.id) + enc_string(m.asset) + enc_string(m.description) + enc_coordinate(m.position)
        + enc_bool(m.under_construction)
}

/// Reads a monument.
pub open spec fn dec_monument(s: Seq<u8>) -> Option<(MonumentModel, Seq<u8>)> {
    match dec_u32(s) {
        Some((id, rest)) => match dec_string(rest) {
            Some((asset, rest2)) => match dec_string(rest2) {
                Some((description, rest3)) => match dec_coordinate(rest3) {
                    Some((position, rest4)) => match dec_bool(rest4) {
                        Some((under_construction, rest5)) => Some(
                            (
                                MonumentModel {
                                    id,
                                    asset,
                                    description,
                                    position,
                                    under_construction,
                                },
                                rest5,
                            ),
                        ),
                        None => None,
                    },
                    None => None,
                },
                None => None,
            },
            None => None,
        },
        None => None,
    }
}

/// Round trip of a coordinate.
pub proof fn lemma_dec_enc_coordinate(c: Coordinate, rest: Seq<u8>)
    ensures
        dec_coordinate(enc_coordinate(c) + rest) == Some((c, rest)),
{
    assert(enc_coordinate(c) + rest =~= enc_i32(c.x) + (enc_i32(c.y) + rest));
    lemma_dec_enc_i32(c.x, enc_i32(c.y) + rest);
    lemma_dec_enc_i32(c.y, rest);
}

/// Round trip of a player record.
pub proof fn lemma_dec_enc_player_data(d: PlayerData, rest: Seq<u8>)
    ensures
        dec_player_data(enc_player_data(d) + rest) == Some((d, rest)),
{
    assert(enc_player_data(d) + rest =~= enc_u32(d.id.0) + (enc_u32(d.balance) + (enc_coordinate(
    d.position) + rest)));
    lemma_dec_enc_u32(d.id.0, enc_u32(d.balance) + (enc_coordinate(d.position) + rest));
    lemma_dec_enc_u32(d.balance, enc_coordinate(d.position) + rest);
    lemma_dec_enc_coordinate(d.position, rest);
}

/// Round trip of a monument whose strings fit their length fields.
pub proof fn lemma_dec_enc_monument(m: MonumentModel, rest: Seq<u8>)
    requires
        m.asset.len() <= u64::MAX,
        m.description.len() <= u64::MAX,
    ensures
        dec_monument(enc_monument(m) + rest) == Some((m, rest)),
{
    let tail1 = enc_string(m.description) + (enc_coordinate(m.position) + (enc_bool(
        m.under_construction,
    ) + rest));
    let tail0 = enc_string(m.asset) + tail1;
    assert(enc_monument(m) + rest =~= enc_u32(m.id) + tail0);
    lemma_dec_enc_u32(m.id, tail0);
    lemma_dec_enc_string(m.asset, tail1);
    lemma_dec_enc_string(
        m.description,
        enc_coordinate(m.position) + (enc_bool(m.under_construction) + rest),
    );
    lemma_dec_enc_coordinate(m.position, enc_bool(m.under_construction) + rest);
    lemma_dec_enc_bool(m.under_construction, rest);
}

// ---------------------------------------------------------------------------
// Whole frames: a tag byte, then the variant's fields, nothing after them.
// ---------------------------------------------------------------------------

/// The encoded frame of a message.
pub open spec fn spec_encode(m: MessageModel) -> Seq<u8> {
    match m {
        MessageModel::Ping => seq![0u8],
        MessageModel::Pong => seq![1u8],
        MessageModel::Connected { id } => seq![2u8] + enc_u32(id.0),
        MessageModel::Welcome { data } => seq![3u8] + enc_player_data(data),
        MessageModel::PlayerPosition { coordinate } => seq![4u8] + enc_coordinate(coordinate),
        MessageModel::EnemyPosition { id, coordinate } => seq![5u8] + enc_u32(id.0)
            + enc_coordinate(coordinate),
        MessageModel::EnemyDisconnected { id } => seq![6u8] + enc_u32(id.0),
        MessageModel::BuildMonumentRequest { prompt } => seq![7u8] + enc_string(prompt),
        MessageModel::MonumentCompleted { id, asset } => seq![8u8] + enc_u32(id) + enc_string(
            asset,
        ),
        MessageModel::BuildMonument { monument } => seq![9u8] + enc_monument(monument),
        MessageModel::MainPlayerPickedUpToken => seq![10u8],
        MessageModel::MainPlayerCurrentBalance { balance } => seq![11u8] + enc_u32(balance),
        MessageModel::MainPlayerSpawn { data } => seq![12u8] + enc_player_data(data),
        MessageModel::EnemyPlayerSpawn { data } => seq![13u8] + enc_player_data(data),
    }
}

/// The decoded message of a frame: the tag picks the variant, the fields
/// follow, and a frame with trailing bytes, a short body, an unknown tag or
/// an invalid scalar is malformed.
pub open spec fn spec_decode(s: Seq<u8>) -> Option<MessageModel> {
    match dec_u8(s) {
        Some((tag, body)) => if tag == 0 {
            if body.len() == 0 {
                Some(MessageModel::Ping)
            } else {
                None
            }
        } else if tag == 1 {
            if body.len() == 0 {
                Some(MessageModel::Pong)
            } else {
                None
            }
        } else if tag == 2 {
            match dec_u32(body) {
                Some((id, rest)) => if rest.len() == 0 {
                    Some(MessageModel::Connected { id: PlayerId(id) })
                } else {
                    None
                },
                None => None,
            }
        } else if tag == 3 {
            match dec_player_data(body) {
                Some((data, rest)) => if rest.len() == 0 {
                    Some(MessageModel::Welcome { data })
                } else {
                    None
                },
                None => None,
            }
        } else if tag == 4 {
            match dec_coordinate(body) {
                Some((coordinate, rest)) => if rest.len() == 0 {
                    Some(MessageModel::PlayerPosition { coordinate })
                } else {
                    None
                },
                None => None,
            }
        } else if tag == 5 {
            match dec_u32(body) {
                Some((id, rest)) => match dec_coordinate(rest) {
                    Some((coordinate, rest2)) => if rest2.len() == 0 {
                        Some(MessageModel::EnemyPosition { id: PlayerId(id), coordinate })
                    } else {
                        None
                    },
                    None => None,
                },
                None => None,
            }
        } else if tag == 6 {
            match dec_u32(body) {
                Some((id, rest)) => if rest.len() == 0 {
                    Some(MessageModel::EnemyDisconnected { id: PlayerId(id) })
                } else {
                    None
                },
                None => None,
            }
        } else if tag == 7 {
            match dec_string(body) {
                Some((prompt, rest)) => if rest.len() == 0 {
                    Some(MessageModel::BuildMonumentRequest { prompt })
                } else {
                    None
                },
                None => None,
            }
        } else if tag == 8 {
            match dec_u32(body) {
                Some((id, rest)) => match dec_string(rest) {
                    Some((asset, rest2)) => if rest2.len() == 0 {
                        Some(MessageModel::MonumentCompleted { id, asset })
                    } else {
                        None
                    },
                    None => None,
                },
                None => None,
            }
        } else if tag == 9 {
            match dec_monument(body) {
                Some((monument, rest)) => if rest.len() == 0 {
                    Some(MessageModel::BuildMonument { monument })
                } else {
                    None
                },
                None => None,
            }
        } else if tag == 10 {
            if body.len() == 0 {
                Some(MessageModel::MainPlayerPickedUpToken)
            } else {
                None
            }
        } else if tag == 11 {
            match dec_u32(body) {
                Some((balance, rest)) => if rest.len() == 0 {
                    Some(MessageModel::MainPlayerCurrentBalance { balance })
                } else {
                    None
                },
                None => None,
            }
        } else if tag == 12 {
            match dec_player_data(body) {
                Some((data, rest)) => if rest.len() == 0 {
                    Some(MessageModel::MainPlayerSpawn { data })
                } else {
                    None
                },
                None => None,
            }
        } else if tag == 13 {
            match dec_player_data(body) {
                Some((data, rest)) => if rest.len() == 0 {
                    Some(MessageModel::EnemyPlayerSpawn { data })
                } else {
                    None
                },
                None => None,
            }
        } else {
            None
        },
        None => None,
    }
}

/// True when every string carried by the message fits its length field;
/// every message built from machine strings satisfies it.
pub open spec fn wf_message(m: MessageModel) -> bool {
    match m {
        MessageModel::BuildMonumentRequest { prompt } => prompt.len() <= u64::MAX,
        MessageModel::MonumentCompleted { asset, .. } => asset.len() <= u64::MAX,
        MessageModel::BuildMonument { monument } => monument.asset.len() <= u64::MAX
            && monument.description.len() <= u64::MAX,
        _ => true,
    }
}

/// The round-trip law of the codec: decoding an encoded frame yields the
/// message that was encoded.
pub proof fn lemma_decode_encode(m: MessageModel)
    requires
        wf_message(m),
    ensures
        spec_decode(spec_encode(m)) == Some(m),
{
    let s = spec_encode(m);
    let empty = Seq::<u8>::empty();
    match m {
        MessageModel::Ping => {
            assert(s.skip(1) =~= empty);
        },
        MessageModel::Pong => {
            assert(s.skip(1) =~= empty);
        },
        MessageModel::Connected { id } => {
            assert(s.skip(1) =~= enc_u32(id.0) + empty);
            lemma_dec_enc_u32(id.0, empty);
        },
        MessageModel::Welcome { data } => {
            assert(s.skip(1) =~= enc_player_data(data) + empty);
            lemma_dec_enc_player_data(data, empty);
        },
        MessageModel::PlayerPosition { coordinate } => {
            assert(s.skip(1) =~= enc_coordinate(coordinate) + empty);
            lemma_dec_enc_coordinate(coordinate, empty);
        },
        MessageModel::EnemyPosition { id, coordinate } => {
            assert(s.skip(1) =~= enc_u32(id.0) + (enc_coordinate(coordinate) + empty));
            lemma_dec_enc_u32(id.0, enc_coordinate(coordinate) + empty);
            lemma_dec_enc_coordinate(coordinate, empty);
        },
        MessageModel::EnemyDisconnected { id } => {
            assert(s.skip(1) =~= enc_u32(id.0) + empty);
            lemma_dec_enc_u32(id.0, empty);
        },
        MessageModel::BuildMonumentRequest { prompt } => {
            assert(s.skip(1) =~= enc_string(prompt) + empty);
            lemma_dec_enc_string(prompt, empty);
        },
        MessageModel::MonumentCompleted { id, asset } => {
            assert(s.skip(1) =~= enc_u32(id) + (enc_string(asset) + empty));
            lemma_dec_enc_u32(id, enc_string(asset) + empty);
            lemma_dec_enc_string(asset, empty);
        },
        MessageModel::BuildMonument { monument } => {
            assert(s.skip(1) =~= enc_monument(monument) + empty);
            lemma_dec_enc_monument(monument, empty);
        },
        MessageModel::MainPlayerPickedUpToken => {
            assert(s.skip(1) =~= empty);
        },
        MessageModel::MainPlayerCurrentBalance { balance } => {
            assert(s.skip(1) =~= enc_u32(balance) + empty);
            lemma_dec_enc_u32(balance, empty);
        },
        MessageModel::MainPlayerSpawn { data } => {
            assert(s.skip(1) =~= enc_player_data(data) + empty);
            lemma_dec_enc_player_data(data, empty);
        },
        MessageModel::EnemyPlayerSpawn { data } => {
            assert(s.skip(1) =~= enc_player_data(data) + empty);
            lemma_dec_enc_player_data(data, empty);
        },
    }
}

// ---------------------------------------------------------------------------
// The executable encoder.
// ---------------------------------------------------------------------------

/// Appending one character's encoding extends the encoding of the sequence.
proof fn lemma_enc_chars_snoc(s: Seq<char>, c: char)
    ensures
        enc_chars(s.push(c)) == enc_chars(s) + enc_u32(c as u32),
    decreases s.len(),
{
    let t = s.push(c);
    assert(t.len() == s.len() + 1);
    if s.len() == 0 {
        assert(t[0] == c);
        assert(t.skip(1) =~= Seq::<char>::empty());
        assert(enc_chars(t.skip(1)) == Seq::<u8>::empty());
        assert(enc_chars(t) == enc_u32(c as u32) + Seq::<u8>::empty());
        assert(enc_u32(c as u32) + Seq::<u8>::empty() =~= enc_u32(c as u32));
        assert(enc_chars(s) == Seq::<u8>::empty());
        assert(enc_chars(s) + enc_u32(c as u32) =~= enc_u32(c as u32));
    } else {
        assert(t[0] == s[0]);
        assert(t.skip(1) =~= s.skip(1).push(c));
        lemma_enc_chars_snoc(s.skip(1), c);
        assert(enc_chars(t) == enc_u32(s[0] as u32) + enc_chars(s.skip(1).push(c)));
        assert(enc_chars(t) == enc_u32(s[0] as u32) + (enc_chars(s.skip(1)) + enc_u32(c as u32)));
        assert(enc_chars(s) == enc_u32(s[0] as u32) + enc_chars(s.skip(1)));
        assert(enc_u32(s[0] as u32) + (enc_chars(s.skip(1)) + enc_u32(c as u32)) =~= (enc_u32(
        s[0] as u32) + enc_chars(s.skip(1))) + enc_u32(c as u32));
    }
}

fn put_u32(out: &mut Vec<u8>, v: u32)
    ensures
        final(out)@ == old(out)@ + enc_u32(v),
{
    out.push((v % 256) as u8);
    out.push(((v / 256) % 256) as u8);
    out.push(((v / 256 / 256) % 256) as u8);
    out.push(((v / 256 / 256 / 256) % 256) as u8);
    proof {
        assert(out@ =~= old(out)@ + enc_u32(v));
    }
}

fn put_u64(out: &mut Vec<u8>, v: u64)
    ensures
        final(out)@ == old(out)@ + enc_u64(v),
{
    out.push((v % 256) as u8);
    out.push(((v / 256) % 256) as u8);
    out.push(((v / 256 / 256) % 256) as u8);
    out.push(((v / 256 / 256 / 256) % 256) as u8);
    out.push(((v / 256 / 256 / 256 / 256) % 256) as u8);
    out.push(((v / 256 / 256 / 256 / 256 / 256) % 256) as u8);
    out.push(((v / 256 / 256 / 256 / 256 / 256 / 256) % 256) as u8);
    out.push(((v / 256 / 256 / 256 / 256 / 256 / 256 / 256) % 256) as u8);
    proof {
        assert(out@ =~= old(out)@ + enc_u64(v));
    }
}

fn put_i32(out: &mut Vec<u8>, v: i32)
    ensures
        final(out)@ == old(out)@ + enc_i32(v),
{
    let u: u32 = ((v as i64) + 0x8000_0000i64) as u32;
    put_u32(out, u);
}

fn put_bool(out: &mut Vec<u8>, b: bool)
    ensures
        final(out)@ == old(out)@ + enc_bool(b),
{
    out.push(if b { 1 } else { 0 });
    proof {
        assert(out@ =~= old(out)@ + enc_bool(b));
    }
}

fn put_string(out: &mut Vec<u8>, s: &str)
    ensures
        final(out)@ == old(out)@ + enc_string(s@),
        s@.len() <= u64::MAX,
{
    let n = s.unicode_len();
    put_u64(out, n as u64);
    let mut k: usize = 0;
    while k < n
        invariant
            n == s@.len(),
            k <= n,
            out@ == old(out)@ + enc_u64(n as u64) + enc_chars(s@.take(k as int)),
        decreases n - k,
    {
        let c = s.get_char(k);
        put_u32(out, c as u32);
        proof {
            lemma_enc_chars_snoc(s@.take(k as int), s@[k as int]);
            assert(s@.take(k + 1 as int) =~= s@.take(k as int).push(s@[k as int]));
            assert(old(out)@ + enc_u64(n as u64) + enc_chars(s@.take(k as int)) + enc_u32(
                s@[k as int] as u32,
            ) =~= old(out)@ + enc_u64(n as u64) + enc_chars(s@.take(k + 1 as int)));
        }
        k = k + 1;
    }
    proof {
        assert(s@.take(n as int) =~= s@);
        assert(old(out)@ + enc_u64(n as u64) + enc_chars(s@) =~= old(out)@ + enc_string(s@));
    }
}

fn put_coordinate(out: &mut Vec<u8>, c: &Coordinate)
    ensures
        final(out)@ == old(out)@ + enc_coordinate(*c),
{
    put_i32(out, c.x);
    put_i32(out, c.y);
    proof {
        assert(old(out)@ + enc_i32(c.x) + enc_i32(c.y) =~= old(out)@ + enc_coordinate(*c));
    }
}

fn put_player_data(out: &mut Vec<u8>, d: &PlayerData)
    ensures
        final(out)@ == old(out)@ + enc_player_data(*d),
{
    put_u32(out, d.id.0);
    put_u32(out, d.balance);
    put_coordinate(out, &d.position);
    proof {
        assert(old(out)@ + enc_u32(d.id.0) + enc_u32(d.balance) + enc_coordinate(d.position)
            =~= old(out)@ + enc_player_data(*d));
    }
}

fn put_monument(out: &mut Vec<u8>, m: &Monument)
    ensures
        final(out)@ == old(out)@ + enc_monument(m@),
        m@.asset.len() <= u64::MAX,
        m@.description.len() <= u64::MAX,
{
    put_u32(out, m.id);
    put_string(out, m.asset.as_str());
    put_string(out, m.description.as_str());
    put_coordinate(out, &m.position);
    put_bool(out, m.under_construction);
    proof {
        assert(old(out)@ + enc_u32(m.id) + enc_string(m@.asset) + enc_string(m@.description)
            + enc_coordinate(m.position) + enc_bool(m.under_construction) =~= old(out)@
            + enc_monument(m@));
    }
}

/// Encodes one message as the frame that [`decode_message`] reads back.
pub fn encode_message(m: &SystemMessages) -> (r: Vec<u8>)
    ensures
        r@ == spec_encode(m@),
        wf_message(m@),
{
    let mut out: Vec<u8> = Vec::new();
    match m {
        SystemMessages::Ping => {
            out.push(0);
        },
        SystemMessages::Pong => {
            out.push(1);
        },
        SystemMessages::Connected { id } => {
            out.push(2);
            put_u32(&mut out, id.0);
        },
        SystemMessages::Welcome { data } => {
            out.push(3);
            put_player_data(&mut out, data);
        },
        SystemMessages::PlayerPosition { coordinate } => {
            out.push(4);
            put_coordinate(&mut out, coordinate);
        },
        SystemMessages::EnemyPosition { id, coordinate } => {
            out.push(5);
            put_u32(&mut out, id.0);
            put_coordinate(&mut out, coordinate);
        },
        SystemMessages::EnemyDisconnected { id } => {
            out.push(6);
            put_u32(&mut out, id.0);
        },
        SystemMessages::BuildMonumentRequest { prompt } => {
            out.push(7);
            put_string(&mut out, prompt.as_str());
        },
        SystemMessages::MonumentCompleted { id, asset } => {
            out.push(8);
            put_u32(&mut out, *id);
            put_string(&mut out, asset.as_str());
        },
        SystemMessages::BuildMonument { monument } => {
            out.push(9);
            put_monument(&mut out, monument);
        },
        SystemMessages::MainPlayerPickedUpToken => {
            out.push(10);
        },
        SystemMessages::MainPlayerCurrentBalance { balance } => {
            out.push(11);
            put_u32(&mut out, *balance);
        },
        SystemMessages::MainPlayerSpawn { data } => {
            out.push(12);
            put_player_data(&mut out, data);
        },
        SystemMessages::EnemyPlayerSpawn { data } => {
            out.push(13);
            put_player_data(&mut out, data);
        },
    }
    proof {
        assert(out@ =~= spec_encode(m@));
    }
    out
}

// ---------------------------------------------------------------------------
// The executable decoder. Each helper reads at a cursor position and relates
// its outcome to the specification parser applied to the bytes from there.
// ---------------------------------------------------------------------------

/// Relies on char::from_u32: the result is the character of the given value
/// exactly when the value is a Unicode scalar, i.e. not a surrogate and at
/// most 0x10FFFF, and nothing otherwise.
#[verifier::external_body]
fn char_from_u32(u: u32) -> (r: Option<char>)
    ensures
        r == (if is_scalar(u) {
            Some(u as char)
        } else {
            None::<char>
        }),
{
    char::from_u32(u)
}

/// Relies on String::push: appends one character at the end of the string.
#[verifier::external_body]
pub(crate) fn push_char(s: &mut String, c: char)
    ensures
        final(s)@ == old(s)@.push(c),
{
    s.push(c)
}

fn take_u8(bytes: &Vec<u8>, i: usize) -> (r: Option<(u8, usize)>)
    requires
        i <= bytes@.len(),
    ensures
        match r {
            Some((v, j)) => i <= j <= bytes@.len() && dec_u8(bytes@.skip(i as int)) == Some(
                (v, bytes@.skip(j as int)),
            ),
            None => dec_u8(bytes@.skip(i as int)) is None,
        },
{
    if bytes.len() - i >= 1 {
        let v = bytes[i];
        proof {
            assert(bytes@.skip(i as int)[0] == bytes@[i as int]);
            assert(bytes@.skip(i as int).skip(1) =~= bytes@.skip(i + 1 as int));
        }
        Some((v, i + 1))
    } else {
        None
    }
}

fn take_u32(bytes: &Vec<u8>, i: usize) -> (r: Option<(u32, usize)>)
    requires
        i <= bytes@.len(),
    ensures
        match r {
            Some((v, j)) => i <= j <= bytes@.len() && dec_u32(bytes@.skip(i as int)) == Some(
                (v, bytes@.skip(j as int)),
            ),
            None => dec_u32(bytes@.skip(i as int)) is None,
        },
{
    if bytes.len() - i >= 4 {
        let b0 = bytes[i] as u32;
        let b1 = bytes[i + 1] as u32;
        let b2 = bytes[i + 2] as u32;
        let b3 = bytes[i + 3] as u32;
        let v = b0 + 256 * b1 + 65536 * b2 + 16777216 * b3;
        proof {
            let s = bytes@.skip(i as int);
            assert(s[0] == bytes@[i as int]);
            assert(s[1] == bytes@[i + 1 as int]);
            assert(s[2] == bytes@[i + 2 as int]);
            assert(s[3] == bytes@[i + 3 as int]);
            assert(s.skip(4) =~= bytes@.skip(i + 4 as int));
        }
        Some((v, i + 4))
    } else {
        None
    }
}

fn take_u64(bytes: &Vec<u8>, i: usize) -> (r: Option<(u64, usize)>)
    requires
        i <= bytes@.len(),
    ensures
        match r {
            Some((v, j)) => i <= j <= bytes@.len() && dec_u64(bytes@.skip(i as int)) == Some(
                (v, bytes@.skip(j as int)),
            ),
            None => dec_u64(bytes@.skip(i as int)) is None,
        },
{
    if bytes.len() - i >= 8 {
        let b0 = bytes[i] as u64;
        let b1 = bytes[i + 1] as u64;
        let b2 = bytes[i + 2] as u64;
        let b3 = bytes[i + 3] as u64;
        let b4 = bytes[i + 4] as u64;
        let b5 = bytes[i + 5] as u64;
        let b6 = bytes[i + 6] as u64;
        let b7 = bytes[i + 7] as u64;
        let v = b0 + 256 * b1 + 65536 * b2 + 16777216 * b3 + 4294967296 * b4 + 1099511627776 * b5
            + 281474976710656 * b6 + 72057594037927936 * b7;
        proof {
            let s = bytes@.skip(i as int);
            assert(s[0] == bytes@[i as int]);
            assert(s[1] == bytes@[i + 1 as int]);
            assert(s[2] == bytes@[i + 2 as int]);
            assert(s[3] == bytes@[i + 3 as int]);
            assert(s[4] == bytes@[i + 4 as int]);
            assert(s[5] == bytes@[i + 5 as int]);
            assert(s[6] == bytes@[i + 6 as int]);
            assert(s[7] == bytes@[i + 7 as int]);
            assert(s.skip(8) =~= bytes@.skip(i + 8 as int));
        }
        Some((v, i + 8))
    } else {
        None
    }
}

fn take_i32(bytes: &Vec<u8>, i: usize) -> (r: Option<(i32, usize)>)
    requires
        i <= bytes@.len(),
    ensures
        match r {
            Some((v, j)) => i <= j <= bytes@.len() && dec_i32(bytes@.skip(i as int)) == Some(
                (v, bytes@.skip(j as int)),
            ),
            None => dec_i32(bytes@.skip(i as int)) is None,
        },
{
    match take_u32(bytes, i) {
        Some((u, j)) => {
            let v: i32 = ((u as i64) - 0x8000_0000i64) as i32;
            Some((v, j))
        },
        None => None,
    }
}

fn take_bool(bytes: &Vec<u8>, i: usize) -> (r: Option<(bool, usize)>)
    requires
        i <= bytes@.len(),
    ensures
        match r {
            Some((v, j)) => i <= j <= bytes@.len() && dec_bool(bytes@.skip(i as int)) == Some(
                (v, bytes@.skip(j as int)),
            ),
            None => dec_bool(bytes@.skip(i as int)) is None,
        },
{
    match take_u8(bytes, i) {
        Some((b, j)) => if b == 0 {
            Some((false, j))
        } else if b == 1 {
            Some((true, j))
        } else {
            None
        },
        None => None,
    }
}

/// A successful character parse consumes four bytes per character.
proof fn lemma_dec_chars_len(s: Seq<u8>, n: nat)
    ensures
        dec_chars(s, n) matches Some((cs, rest)) ==> cs.len() == n && s.len() == 4 * n
            + rest.len(),
    decreases n,
{
    if n > 0 {
        match dec_u32(s) {
            Some((u, rest)) => {
                lemma_dec_chars_len(rest, (n - 1) as nat);
            },
            None => {},
        }
    }
}

fn take_chars(bytes: &Vec<u8>, i: usize, n: u64) -> (r: Option<(String, usize)>)
    requires
        i <= bytes@.len(),
    ensures
        match r {
            Some((s, j)) => i <= j <= bytes@.len() && dec_chars(bytes@.skip(i as int), n as nat)
                == Some((s@, bytes@.skip(j as int))),
            None => dec_chars(bytes@.skip(i as int), n as nat) is None,
        },
{
    if n > ((bytes.len() - i) / 4) as u64 {
        proof {
            lemma_dec_chars_len(bytes@.skip(i as int), n as nat);
        }
        return None;
    }
    let mut acc = String::new();
    let mut j: usize = i;
    let mut k: u64 = 0;
    proof {
        match dec_chars(bytes@.skip(i as int), n as nat) {
            Some((cs, rest)) => {
                assert(Seq::<char>::empty() + cs =~= cs);
            },
            None => {},
        }
    }
    while k < n
        invariant
            i <= j <= bytes@.len(),
            k <= n,
            acc@.len() == k,
            dec_chars(bytes@.skip(i as int), n as nat) == (match dec_chars(
                bytes@.skip(j as int),
                (n - k) as nat,
            ) {
                Some((cs, rest)) => Some((acc@ + cs, rest)),
                None => None::<(Seq<char>, Seq<u8>)>,
            }),
        decreases n - k,
    {
        let ghost pre = acc@;
        let ghost m = (n - k) as nat;
        match take_u32(bytes, j) {
            Some((u, j2)) => {
                match char_from_u32(u) {
                    Some(c) => {
                        push_char(&mut acc, c);
                        proof {
                            assert(dec_chars(bytes@.skip(j as int), m) == (match dec_chars(
                                bytes@.skip(j2 as int),
                                (m - 1) as nat,
                            ) {
                                Some((cs, rest)) => Some((seq![c] + cs, rest)),
                                None => None::<(Seq<char>, Seq<u8>)>,
                            }));
                            match dec_chars(bytes@.skip(j2 as int), (m - 1) as nat) {
                                Some((cs, rest)) => {
                                    assert(pre + (seq![c] + cs) =~= pre.push(c) + cs);
                                },
                                None => {},
                            }
                        }
                        j = j2;
                        k = k + 1;
                    },
                    None => {
                        return None;
                    },
                }
            },
            None => {
                return None;
            },
        }
    }
    proof {
        assert(dec_chars(bytes@.skip(j as int), 0) == Some(
            (Seq::<char>::empty(), bytes@.skip(j as int)),
        ));
        assert(acc@ + Seq::<char>::empty() =~= acc@);
    }
    Some((acc, j))
}

fn take_string(bytes: &Vec<u8>, i: usize) -> (r: Option<(String, usize)>)
    requires
        i <= bytes@.len(),
    ensures
        match r {
            Some((s, j)) => i <= j <= bytes@.len() && dec_string(bytes@.skip(i as int)) == Some(
                (s@, bytes@.skip(j as int)),
            ),
            None => dec_string(bytes@.skip(i as int)) is None,
        },
{
    match take_u64(bytes, i) {
        Some((n, j)) => take_chars(bytes, j, n),
        None => None,
    }
}

fn take_coordinate(bytes: &Vec<u8>, i: usize) -> (r: Option<(Coordinate, usize)>)
    requires
        i <= bytes@.len(),
    ensures
        match r {
            Some((c, j)) => i <= j <= bytes@.len() && dec_coordinate(bytes@.skip(i as int))
                == Some((c, bytes@.skip(j as int))),
            None => dec_coordinate(bytes@.skip(i as int)) is None,
        },
{
    match take_i32(bytes, i) {
        Some((x, j)) => match take_i32(bytes, j) {
            Some((y, j2)) => Some((Coordinate { x, y }, j2)),
            None => None,
        },
        None => None,
    }
}

fn take_player_data(bytes: &Vec<u8>, i: usize) -> (r: Option<(PlayerData, usize)>)
    requires
        i <= bytes@.len(),
    ensures
        match r {
            Some((d, j)) => i <= j <= bytes@.len() && dec_player_data(bytes@.skip(i as int))
                == Some((d, bytes@.skip(j as int))),
            None => dec_player_data(bytes@.skip(i as int)) is None,
        },
{
    match take_u32(bytes, i) {
        Some((id, j)) => match take_u32(bytes, j) {
            Some((balance, j2)) => match take_coordinate(bytes, j2) {
                Some((position, j3)) => Some(
                    (PlayerData { id: PlayerId(id), balance, position }, j3),
                ),
                None => None,
            },
            None => None,
        },
        None => None,
    }
}

fn take_monument(bytes: &Vec<u8>, i: usize) -> (r: Option<(Monument, usize)>)
    requires
        i <= bytes@.len(),
    ensures
        match r {
            Some((m, j)) => i <= j <= bytes@.len() && dec_monument(bytes@.skip(i as int)) == Some(
                (m@, bytes@.skip(j as int)),
            ),
            None => dec_monument(bytes@.skip(i as int)) is None,
        },
{
    match take_u32(bytes, i) {
        Some((id, j)) => match take_string(bytes, j) {
            Some((asset, j2)) => match take_string(bytes, j2) {
                Some((description, j3)) => match take_coordinate(bytes, j3) {
                    Some((position, j4)) => match take_bool(bytes, j4) {
                        Some((under_construction, j5)) => Some(
                            (
                                Monument { id, asset, description, position, under_construction },
                                j5,
                            ),
                        ),
                        None => None,
                    },
                    None => None,
                },
                None => None,
            },
            None => None,
        },
        None => None,
    }
}

/// Decodes one frame; a malformed or unknown-tag frame yields nothing and
/// has no further effect.
pub fn decode_message(bytes: &Vec<u8>) -> (r: Option<SystemMessages>)
    ensures
        match r {
            Some(m) => spec_decode(bytes@) == Some(m@),
            None => spec_decode(bytes@) is None,
        },
{
    proof {
        assert(bytes@.skip(0) =~= bytes@);
    }
    let (tag, i) = match take_u8(bytes, 0) {
        Some(p) => p,
        None => {
            return None;
        },
    };
    if tag == 0 {
        if i == bytes.len() {
            Some(SystemMessages::Ping)
        } else {
            None
        }
    } else if tag == 1 {
        if i == bytes.len() {
            Some(SystemMessages::Pong)
        } else {
            None
        }
    } else if tag == 2 {
        match take_u32(bytes, i) {
            Some((id, j)) => if j == bytes.len() {
                Some(SystemMessages::Connected { id: PlayerId(id) })
            } else {
                None
            },
            None => None,
        }
    } else if tag == 3 {
        match take_player_data(bytes, i) {
            Some((data, j)) => if j == bytes.len() {
                Some(SystemMessages::Welcome { data })
            } else {
                None
            },
            None => None,
        }
    } else if tag == 4 {
        match take_coordinate(bytes, i) {
            Some((coordinate, j)) => if j == bytes.len() {
                Some(SystemMessages::PlayerPosition { coordinate })
            } else {
                None
            },
            None => None,
        }
    } else if tag == 5 {
        match take_u32(bytes, i) {
            Some((id, j)) => match take_coordinate(bytes, j) {
                Some((coordinate, j2)) => if j2 == bytes.len() {
                    Some(SystemMessages::EnemyPosition { id: PlayerId(id), coordinate })
                } else {
                    None
                },
                None => None,
            },
            None => None,
        }
    } else if tag == 6 {
        match take_u32(bytes, i) {
            Some((id, j)) => if j == bytes.len() {
                Some(SystemMessages::EnemyDisconnected { id: PlayerId(id) })
            } else {
                None
            },
            None => None,
        }
    } else if tag == 7 {
        match take_string(bytes, i) {
            Some((prompt, j)) => if j == bytes.len() {
                Some(SystemMessages::BuildMonumentRequest { prompt })
            } else {
                None
            },
            None => None,
        }
    } else if tag == 8 {
        match take_u32(bytes, i) {
            Some((id, j)) => match take_string(bytes, j) {
                Some((asset, j2)) => if j2 == bytes.len() {
                    Some(SystemMessages::MonumentCompleted { id, asset })
                } else {
                    None
                },
                None => None,
            },
            None => None,
        }
    } else if tag == 9 {
        match take_monument(bytes, i) {
            Some((monument, j)) => if j == bytes.len() {
                Some(SystemMessages::BuildMonument { monument })
            } else {
                None
            },
            None => None,
        }
    } else if tag == 10 {
        if i == bytes.len() {
            Some(SystemMessages::MainPlayerPickedUpToken)
        } else {
            None
        }
    } else if tag == 11 {
        match take_u32(bytes, i) {
            Some((balance, j)) => if j == bytes.len() {
                Some(SystemMessages::MainPlayerCurrentBalance { balance })
            } else {
                None
            },
            None => None,
        }
    } else if tag == 12 {
        match take_player_data(bytes, i) {
            Some((data, j)) => if j == bytes.len() {
                Some(SystemMessages::MainPlayerSpawn { data })
            } else {
                None
            },
            None => None,
        }
    } else if tag == 13 {
        match take_player_data(bytes, i) {
            Some((data, j)) => if j == bytes.len() {
                Some(SystemMessages::EnemyPlayerSpawn { data })
            } else {
                None
            },
            None => None,
        }
    } else {
        None
    }
}

} // verus!
