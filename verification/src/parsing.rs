//! Torrent metadata: parsing a decoded bencode dictionary into the
//! [`Torrent`] model, the canonical info-hash, the display conversion of
//! decoded values, and the byte-level tracker contract (announce query and
//! compact peer list).
use crate::bencode::BencodeValue;
use crate::bencode::canonical;
use crate::bencode::dec_digits;
use crate::bencode::enc;
use crate::bencode::int_bytes;
use crate::bencode::str_bytes;
use crate::types::TorrentError;
use crate::types::format_error;
use sha1::Digest;
use vstd::prelude::*;

verus! {

broadcast use vstd::std_specs::vec::group_vec_axioms;

/// An input to ad-hoc decoding: raw bytes, or text whose UTF-8 bytes are
/// decoded.
pub enum ENCODED {
    Bytes(Vec<u8>),
    String(String),
}

/// The torrent descriptor: the tracker URL and the immutable info dictionary.
#[derive(Debug, Clone)]
pub struct Torrent {
    pub announce: String,
    pub info: Info,
}

/// The `info` dictionary of a torrent: file name, piece size, the expected
/// 20-byte SHA-1 of every piece, and the total file length.
#[derive(Debug, Clone)]
pub struct Info {
    pub name: String,
    pub piece_length: usize,
    pub pieces: Vec<u8>,
    pub length: usize,
}

/// The bytes of the key "announce".
pub open spec fn announce_key() -> Seq<u8> {
    seq![97u8, 110u8, 110u8, 111u8, 117u8, 110u8, 99u8, 101u8]
}

/// The bytes of the key "info".
pub open spec fn info_key() -> Seq<u8> {
    seq![105u8, 110u8, 102u8, 111u8]
}

/// The bytes of the key "length".
pub open spec fn length_key() -> Seq<u8> {
    seq![108u8, 101u8, 110u8, 103u8, 116u8, 104u8]
}

/// The bytes of the key "name".
pub open spec fn name_key() -> Seq<u8> {
    seq![110u8, 97u8, 109u8, 101u8]
}

/// The bytes of the key "piece length".
pub open spec fn piece_length_key() -> Seq<u8> {
    seq![112u8, 105u8, 101u8, 99u8, 101u8, 32u8, 108u8, 101u8, 110u8, 103u8, 116u8, 104u8]
}

/// The bytes of the key "peers".
pub open spec fn peers_key() -> Seq<u8> {
    seq![112u8, 101u8, 101u8, 114u8, 115u8]
}

/// The bytes of the key "pieces".
pub open spec fn pieces_key() -> Seq<u8> {
    seq![112u8, 105u8, 101u8, 99u8, 101u8, 115u8]
}

/// First match for `key` among dictionary pairs (in a canonical dictionary
/// keys are unique, so the first match is the only one).
pub open spec fn dict_lookup(pairs: Seq<(Vec<u8>, BencodeValue)>, key: Seq<u8>) -> Option<
    BencodeValue,
>
    decreases pairs.len(),
{
    if pairs.len() == 0 {
        None
    } else if pairs[0].0@ == key {
        Some(pairs[0].1)
    } else {
        dict_lookup(pairs.drop_first(), key)
    }
}

/// Copies the contents of a byte vector.
fn copy_bytes(src: &Vec<u8>) -> (r: Vec<u8>)
    ensures
        r@ == src@,
{
    let mut out: Vec<u8> = Vec::new();
    let mut k: usize = 0;
    while k < src.len()
        invariant
            k <= src@.len(),
            out@ == src@.take(k as int),
        decreases src@.len() - k,
    {
        out.push(src[k]);
        assert(out@ =~= src@.take(k as int + 1));
        k += 1;
    }
    proof {
        assert(src@.take(src@.len() as int) =~= src@);
    }
    out
}

/// Compares two byte vectors for equality of contents.
pub fn eq_keys(a: &Vec<u8>, b: &Vec<u8>) -> (r: bool)
    ensures
        r == (a@ == b@),
{
    if a.len() != b.len() {
        proof {
            assert(a@.len() != b@.len());
        }
        return false;
    }
    let mut k: usize = 0;
    while k < a.len()
        invariant
            k <= a@.len(),
            a@.len() == b@.len(),
            forall|i: int| 0 <= i < k ==> a@[i] == b@[i],
        decreases a@.len() - k,
    {
        if a[k] != b[k] {
            return false;
        }
        k += 1;
    }
    proof {
        assert(a@ =~= b@);
    }
    true
}

/// Looks `key` up in the pairs of a decoded dictionary.
fn dict_get<'a>(pairs: &'a Vec<(Vec<u8>, BencodeValue)>, key: &Vec<u8>) -> (r: Option<
    &'a BencodeValue,
>)
    ensures
        r matches Some(v) ==> dict_lookup(pairs@, key@) == Some(*v),
        r is None ==> dict_lookup(pairs@, key@) is None,
{
    let mut k: usize = 0;
    proof {
        assert(pairs@.skip(0) =~= pairs@);
    }
    loop
        invariant
            k <= pairs@.len(),
            dict_lookup(pairs@, key@) == dict_lookup(pairs@.skip(k as int), key@),
        decreases pairs@.len() - k,
    {
        if k >= pairs.len() {
            return None;
        }
        proof {
            assert(pairs@.skip(k as int)[0] == pairs@[k as int]);
            assert(pairs@.skip(k as int).drop_first() =~= pairs@.skip(k as int + 1));
        }
        if eq_keys(&pairs[k].0, key) {
            return Some(&pairs[k].1);
        }
        k += 1;
    }
}

/// The SHA-1 digest of `bytes`, named abstractly: the digest is a pure
/// function of the input alone.
pub uninterp spec fn sha1_of(bytes: Seq<u8>) -> Seq<u8>;

/// Relies on `sha1::Sha1` (RustCrypto's SHA-1): the digest depends on the
/// input bytes alone and is always exactly 20 bytes long.
#[verifier::external_body]
fn sha1_digest(bytes: &Vec<u8>) -> (r: Vec<u8>)
    ensures
        r@ == sha1_of(bytes@),
        r@.len() == 20,
{
    let mut hasher = sha1::Sha1::new();
    hasher.update(bytes.as_slice());
    hasher.finalize().to_vec()
}

/// Relies on `String::from_utf8` (std): it succeeds exactly on valid UTF-8
/// input, and the returned string holds exactly the input bytes.
#[verifier::external_body]
fn utf8_to_string(bytes: &Vec<u8>) -> (r: Option<String>)
    ensures
        r is Some <==> vstd::utf8::valid_utf8(bytes@),
        r matches Some(s) ==> vstd::utf8::encode_utf8(s@) == bytes@,
{
    String::from_utf8(bytes.clone()).ok()
}

/// Well-formedness of parsed metadata: a positive piece size, a piece-hash
/// blob of whole 20-byte entries, one entry per piece
/// (`ceil(length / piece_length) == pieces.len() / 20`), and sizes that fit a
/// signed 64-bit bencode integer.
impl Info {
    pub open spec fn wf(self) -> bool {
        &&& 1 <= self.piece_length as int <= i64::MAX as int
        &&& 0 <= self.length as int <= i64::MAX as int
        &&& self.pieces@.len() % 20 == 0
        &&& (self.length as int + self.piece_length as int - 1) / (self.piece_length as int)
            == self.pieces@.len() as int / 20
    }
}

/// What a successfully parsed [`Torrent`] holds, field by field, in terms of
/// the decoded dictionary it was read from.
pub open spec fn parsed_torrent(map: BencodeValue, t: Torrent) -> bool {
    map matches BencodeValue::Dictionary(top) && {
        &&& (dict_lookup(top@, announce_key()) matches Some(BencodeValue::ByteString(ab))
            && vstd::utf8::valid_utf8(ab@) && vstd::utf8::encode_utf8(t.announce@) == ab@)
        &&& (dict_lookup(top@, info_key()) matches Some(BencodeValue::Dictionary(ip)) && {
            &&& (dict_lookup(ip@, name_key()) matches Some(BencodeValue::ByteString(nb))
                && vstd::utf8::valid_utf8(nb@) && vstd::utf8::encode_utf8(t.info.name@) == nb@)
            &&& (dict_lookup(ip@, piece_length_key()) matches Some(BencodeValue::Integer(pl))
                && t.info.piece_length as int == pl as int)
            &&& (dict_lookup(ip@, length_key()) matches Some(BencodeValue::Integer(ln))
                && t.info.length as int == ln as int)
            &&& (dict_lookup(ip@, pieces_key()) matches Some(BencodeValue::ByteString(pb))
                && t.info.pieces@ == pb@)
        })
    }
}

/// When a decoded value holds a well-formed torrent descriptor: every
/// required field present, of the right kind, and in range.
pub open spec fn torrent_ok(map: BencodeValue) -> bool {
    map matches BencodeValue::Dictionary(top) && {
        &&& (dict_lookup(top@, announce_key()) matches Some(BencodeValue::ByteString(ab))
            && vstd::utf8::valid_utf8(ab@))
        &&& (dict_lookup(top@, info_key()) matches Some(BencodeValue::Dictionary(ip)) && {
            &&& (dict_lookup(ip@, name_key()) matches Some(BencodeValue::ByteString(nb))
                && vstd::utf8::valid_utf8(nb@))
            &&& (dict_lookup(ip@, piece_length_key()) matches Some(BencodeValue::Integer(pl)) && 1
                <= pl as int <= usize::MAX as int && (dict_lookup(ip@, length_key()) matches Some(
                BencodeValue::Integer(ln),
            ) && 0 <= ln as int <= usize::MAX as int && (dict_lookup(
                ip@,
                pieces_key(),
            ) matches Some(BencodeValue::ByteString(pb)) && pb@.len() % 20 == 0 && (ln as int
                + pl as int - 1) / (pl as int) == pb@.len() as int / 20)))
        })
    }
}

impl Torrent {
    /// Reads the torrent fields out of a decoded bencode dictionary. Succeeds
    /// exactly when every required field is present, of the right kind and in
    /// range; the error names the field that failed.
    pub fn new(map: &BencodeValue) -> (r: Result<Torrent, TorrentError>)
        ensures
            r is Ok <==> torrent_ok(*map),
            r matches Ok(t) ==> parsed_torrent(*map, t) && t.info.wf(),
            r matches Err(e) ==> e is Format,
    {
        let top = match map {
            BencodeValue::Dictionary(pairs) => pairs,
            _ => {
                return Err(format_error("torrent: not a dictionary"));
            },
        };
        let announce_k: Vec<u8> = vec![97u8, 110u8, 110u8, 111u8, 117u8, 110u8, 99u8, 101u8];
        proof {
            assert(announce_k@ =~= announce_key());
        }
        let announce = match dict_get(top, &announce_k) {
            Some(BencodeValue::ByteString(ab)) => match utf8_to_string(ab) {
                Some(s) => s,
                None => {
                    return Err(format_error("torrent: announce is not UTF-8"));
                },
            },
            _ => {
                return Err(format_error("torrent: missing announce"));
            },
        };
        let info_k: Vec<u8> = vec![105u8, 110u8, 102u8, 111u8];
        proof {
            assert(info_k@ =~= info_key());
        }
        let ip = match dict_get(top, &info_k) {
            Some(BencodeValue::Dictionary(ip)) => ip,
            _ => {
                return Err(format_error("torrent: missing info dictionary"));
            },
        };
        let name_k: Vec<u8> = vec![110u8, 97u8, 109u8, 101u8];
        proof {
            assert(name_k@ =~= name_key());
        }
        let name = match dict_get(ip, &name_k) {
            Some(BencodeValue::ByteString(nb)) => match utf8_to_string(nb) {
                Some(s) => s,
                None => {
                    return Err(format_error("torrent: name is not UTF-8"));
                },
            },
            _ => {
                return Err(format_error("torrent: missing name"));
            },
        };
        let plen_k: Vec<u8> = vec![
            112u8,
            105u8,
            101u8,
            99u8,
            101u8,
            32u8,
            108u8,
            101u8,
            110u8,
            103u8,
            116u8,
            104u8,
        ];
        proof {
            assert(plen_k@ =~= piece_length_key());
        }
        let piece_length: usize = match dict_get(ip, &plen_k) {
            Some(BencodeValue::Integer(n)) => {
                if *n < 1 || (*n as u64) > (usize::MAX as u64) {
                    return Err(format_error("torrent: piece length out of range"));
                }
                *n as usize
            },
            _ => {
                return Err(format_error("torrent: missing piece length"));
            },
        };
        let length_k: Vec<u8> = vec![108u8, 101u8, 110u8, 103u8, 116u8, 104u8];
        proof {
            assert(length_k@ =~= length_key());
        }
        let length: usize = match dict_get(ip, &length_k) {
            Some(BencodeValue::Integer(n)) => {
                if *n < 0 || (*n as u64) > (usize::MAX as u64) {
                    return Err(format_error("torrent: length out of range"));
                }
                *n as usize
            },
            _ => {
                return Err(format_error("torrent: missing length"));
            },
        };
        let pieces_k: Vec<u8> = vec![112u8, 105u8, 101u8, 99u8, 101u8, 115u8];
        proof {
            assert(pieces_k@ =~= pieces_key());
        }
        let pieces: Vec<u8> = match dict_get(ip, &pieces_k) {
            Some(BencodeValue::ByteString(pb)) => copy_bytes(pb),
            _ => {
                return Err(format_error("torrent: missing pieces"));
            },
        };
        if pieces.len() % 20 != 0 {
            return Err(format_error("torrent: pieces is not whole 20-byte hashes"));
        }
        let piece_count: usize = if length == 0 {
            0
        } else {
            (length - 1) / piece_length + 1
        };
        proof {
            if length == 0 {
                assert((length as int + piece_length as int - 1) / (piece_length as int) == 0)
                    by (nonlinear_arith)
                    requires
                        length as int == 0,
                        piece_length as int >= 1,
                ;
            }
            if length > 0 {
                assert((length as int + piece_length as int - 1) / (piece_length as int) == (
                length as int - 1) / (piece_length as int) + 1) by (nonlinear_arith)
                    requires
                        length as int >= 1,
                        piece_length as int >= 1,
                ;
            }
        }
        if piece_count != pieces.len() / 20 {
            return Err(format_error("torrent: piece count does not match pieces"));
        }
        Ok(Torrent { announce, info: Info { name, piece_length, pieces, length } })
    }
}

/// The characters that a sequence of ASCII bytes reads as.
pub open spec fn ascii_chars_of(bytes: Seq<u8>) -> Seq<char> {
    Seq::new(bytes.len(), |i: int| bytes[i] as char)
}

/// ASCII bytes are valid UTF-8 and decode to themselves, character for
/// character.
pub proof fn lemma_ascii_bytes(bytes: Seq<u8>)
    requires
        forall|i: int| 0 <= i < bytes.len() ==> bytes[i] < 128,
    ensures
        vstd::utf8::valid_utf8(bytes),
        vstd::utf8::decode_utf8(bytes) == ascii_chars_of(bytes),
{
    let chars = ascii_chars_of(bytes);
    assert(vstd::utf8::is_ascii_chars(chars)) by {
        assert(forall|i: int| 0 <= i < chars.len() ==> '\0' <= #[trigger] chars[i] <= '\u{7f}');
    }
    vstd::utf8::is_ascii_chars_encode_utf8(chars);
    assert(vstd::utf8::encode_utf8(chars) =~= bytes);
    vstd::utf8::encode_utf8_valid_utf8(chars);
    vstd::utf8::encode_utf8_decode_utf8(chars);
}

/// The lowercase ASCII hex digit for a value below 16.
pub open spec fn hex_digit(n: u8) -> u8 {
    if n < 10 {
        (n + 48) as u8
    } else {
        (n + 87) as u8
    }
}

/// The lowercase hex rendering of a byte string, two digits per byte.
pub open spec fn hex_bytes(b: Seq<u8>) -> Seq<u8> {
    Seq::new(
        2 * b.len(),
        |i: int|
            if i % 2 == 0 {
                hex_digit(b[i / 2] / 16)
            } else {
                hex_digit(b[i / 2] % 16)
            },
    )
}

/// Renders bytes as lowercase ASCII hex digits.
fn hex_ascii(b: &Vec<u8>) -> (r: Vec<u8>)
    ensures
        r@ == hex_bytes(b@),
        forall|i: int| 0 <= i < r@.len() ==> r@[i] < 128,
{
    let mut out: Vec<u8> = Vec::new();
    let mut k: usize = 0;
    while k < b.len()
        invariant
            k <= b@.len(),
            out@.len() == 2 * k,
            forall|i: int| 0 <= i < out@.len() ==> out@[i] == hex_bytes(b@)[i],
        decreases b@.len() - k,
    {
        let hi = b[k] / 16;
        let lo = b[k] % 16;
        out.push(if hi < 10 {
            hi + 48
        } else {
            hi + 87
        });
        out.push(if lo < 10 {
            lo + 48
        } else {
            lo + 87
        });
        k += 1;
    }
    proof {
        assert(out@ =~= hex_bytes(b@));
        assert(forall|i: int| 0 <= i < out@.len() ==> out@[i] < 128);
    }
    out
}

/// The bencode encoding of the integer `n`: `i<decimal>e`.
pub open spec fn int_enc(n: int) -> Seq<u8> {
    seq![105u8] + int_bytes(n) + seq![101u8]
}

/// The canonical bencode encoding of the `info` dictionary: its four fields
/// as `<key><value>` pairs in lexicographic key order
/// ("length" < "name" < "piece length" < "pieces"), wrapped in `d`...`e`.
/// SHA-1 over exactly these bytes is the info-hash.
pub open spec fn info_enc(info: Info) -> Seq<u8> {
    seq![100u8] + str_bytes(length_key()) + int_enc(info.length as int) + str_bytes(name_key())
        + str_bytes(vstd::utf8::encode_utf8(info.name@)) + str_bytes(piece_length_key()) + int_enc(
        info.piece_length as int,
    ) + str_bytes(pieces_key()) + str_bytes(info.pieces@) + seq![101u8]
}

impl Torrent {
    /// Builds the canonical bencode value of the `info` dictionary.
    pub fn info_value(&self) -> (r: BencodeValue)
        requires
            self.info.wf(),
        ensures
            r matches BencodeValue::Dictionary(ps) && enc(r) == info_enc(self.info),
            canonical(r),
    {
        let mut pairs: Vec<(Vec<u8>, BencodeValue)> = Vec::new();
        let k_length: Vec<u8> = vec![108u8, 101u8, 110u8, 103u8, 116u8, 104u8];
        let v_length = BencodeValue::Integer(self.info.length as i64);
        proof {
            assert(k_length@ =~= length_key());
            crate::bencode::lemma_enc_pairs_push(pairs@, k_length, v_length);
        }
        pairs.push((k_length, v_length));
        let k_name: Vec<u8> = vec![110u8, 97u8, 109u8, 101u8];
        let v_name = BencodeValue::ByteString(
            vstd::string::StrSliceExecFns::as_bytes_vec(self.info.name.as_str()),
        );
        proof {
            assert(k_name@ =~= name_key());
            crate::bencode::lemma_enc_pairs_push(pairs@, k_name, v_name);
        }
        pairs.push((k_name, v_name));
        let k_plen: Vec<u8> = vec![
            112u8,
            105u8,
            101u8,
            99u8,
            101u8,
            32u8,
            108u8,
            101u8,
            110u8,
            103u8,
            116u8,
            104u8,
        ];
        let v_plen = BencodeValue::Integer(self.info.piece_length as i64);
        proof {
            assert(k_plen@ =~= piece_length_key());
            crate::bencode::lemma_enc_pairs_push(pairs@, k_plen, v_plen);
        }
        pairs.push((k_plen, v_plen));
        let k_pieces: Vec<u8> = vec![112u8, 105u8, 101u8, 99u8, 101u8, 115u8];
        let v_pieces = BencodeValue::ByteString(copy_bytes(&self.info.pieces));
        proof {
            assert(k_pieces@ =~= pieces_key());
            crate::bencode::lemma_enc_pairs_push(pairs@, k_pieces, v_pieces);
        }
        pairs.push((k_pieces, v_pieces));
        let ghost gpairs = pairs@;
        let r = BencodeValue::Dictionary(pairs);
        proof {
            assert(enc(r) =~= info_enc(self.info));
            crate::bencode::lemma_lex_less_at(length_key(), name_key(), 0);
            crate::bencode::lemma_lex_less_at(name_key(), piece_length_key(), 0);
            crate::bencode::lemma_lex_less_at(piece_length_key(), pieces_key(), 5);
            assert(gpairs.len() == 4);
            assert(gpairs[0].0@ == length_key() && gpairs[1].0@ == name_key() && gpairs[2].0@
                == piece_length_key() && gpairs[3].0@ == pieces_key());
            assert(canonical(gpairs[0].1) && canonical(gpairs[1].1) && canonical(gpairs[2].1)
                && canonical(gpairs[3].1));
            assert(forall|k: int| #![trigger gpairs[k]] 0 <= k < gpairs.len() ==> canonical(
                gpairs[k].1,
            ));
            assert(forall|k: int|
                #![trigger gpairs[k]]
                0 <= k < gpairs.len() - 1 ==> crate::bencode::lex_less(
                    gpairs[k].0@,
                    gpairs[k + 1].0@,
                ));
            assert(canonical(r));
        }
        r
    }

    /// Re-encodes the `info` dictionary canonically and hashes those exact
    /// bytes with SHA-1: the swarm's shared identifier for the content.
    pub fn get_info_hash(&self) -> (r: Vec<u8>)
        requires
            self.info.wf(),
        ensures
            r@ == sha1_of(info_enc(self.info)),
            r@.len() == 20,
    {
        let v = self.info_value();
        let bytes = v.encode();
        sha1_digest(&bytes)
    }
}

/// A JSON-like value for human display of decoded bencode: byte strings
/// render as text when they are valid UTF-8 and as lowercase hex otherwise.
/// Lossy, for inspection only — never an input to hashing.
#[derive(Debug, PartialEq, Eq)]
pub enum DisplayValue {
    Text(String),
    Number(i64),
    Array(Vec<DisplayValue>),
    Object(Vec<(String, DisplayValue)>),
}

/// How a display value renders a bencode value: integers as numbers, byte
/// strings as their decoded text or their lowercase hex, containers
/// element for element, dictionary keys as UTF-8 text.
pub open spec fn displays(v: BencodeValue, d: DisplayValue) -> bool
    decreases v,
{
    match (v, d) {
        (BencodeValue::ByteString(b), DisplayValue::Text(s)) => if vstd::utf8::valid_utf8(b@) {
            vstd::utf8::encode_utf8(s@) == b@
        } else {
            s@ == ascii_chars_of(hex_bytes(b@))
        },
        (BencodeValue::Integer(n), DisplayValue::Number(m)) => m == n,
        (BencodeValue::List(items), DisplayValue::Array(ds)) => displays_elems(items@, ds@),
        (BencodeValue::Dictionary(pairs), DisplayValue::Object(es)) => displays_pairs(pairs@, es@),
        _ => false,
    }
}

/// Elementwise display of list items.
pub open spec fn displays_elems(items: Seq<BencodeValue>, ds: Seq<DisplayValue>) -> bool
    decreases items,
{
    if items.len() == 0 {
        ds.len() == 0
    } else {
        ds.len() == items.len() && displays(items[0], ds[0]) && displays_elems(
            items.drop_first(),
            ds.drop_first(),
        )
    }
}

/// Pairwise display of dictionary entries: each key is valid UTF-8 rendered
/// as text, each value recursively.
pub open spec fn displays_pairs(
    pairs: Seq<(Vec<u8>, BencodeValue)>,
    es: Seq<(String, DisplayValue)>,
) -> bool
    decreases pairs,
{
    if pairs.len() == 0 {
        es.len() == 0
    } else {
        es.len() == pairs.len() && vstd::utf8::valid_utf8(pairs[0].0@) && vstd::utf8::encode_utf8(
            es[0].0@,
        ) == pairs[0].0@ && displays(pairs[0].1, es[0].1) && displays_pairs(
            pairs.drop_first(),
            es.drop_first(),
        )
    }
}

proof fn lemma_displays_elems_push(
    items: Seq<BencodeValue>,
    ds: Seq<DisplayValue>,
    x: BencodeValue,
    y: DisplayValue,
)
    requires
        displays_elems(items, ds),
        displays(x, y),
    ensures
        displays_elems(items.push(x), ds.push(y)),
    decreases items.len(),
{
    if items.len() == 0 {
        reveal_with_fuel(displays_elems, 3);
        assert(items.push(x).drop_first() =~= Seq::<BencodeValue>::empty());
        assert(ds.push(y).drop_first() =~= Seq::<DisplayValue>::empty());
        assert(items.push(x)[0] == x && ds.push(y)[0] == y);
    } else {
        assert(items.push(x).drop_first() =~= items.drop_first().push(x));
        assert(ds.push(y).drop_first() =~= ds.drop_first().push(y));
        lemma_displays_elems_push(items.drop_first(), ds.drop_first(), x, y);
        assert(items.push(x)[0] == items[0] && ds.push(y)[0] == ds[0]);
    }
}

proof fn lemma_displays_pairs_push(
    pairs: Seq<(Vec<u8>, BencodeValue)>,
    es: Seq<(String, DisplayValue)>,
    k: Vec<u8>,
    v: BencodeValue,
    ks: String,
    d: DisplayValue,
)
    requires
        displays_pairs(pairs, es),
        vstd::utf8::valid_utf8(k@),
        vstd::utf8::encode_utf8(ks@) == k@,
        displays(v, d),
    ensures
        displays_pairs(pairs.push((k, v)), es.push((ks, d))),
    decreases pairs.len(),
{
    if pairs.len() == 0 {
        reveal_with_fuel(displays_pairs, 3);
        assert(pairs.push((k, v)).drop_first() =~= Seq::<(Vec<u8>, BencodeValue)>::empty());
        assert(es.push((ks, d)).drop_first() =~= Seq::<(String, DisplayValue)>::empty());
        assert(pairs.push((k, v))[0] == (k, v) && es.push((ks, d))[0] == (ks, d));
    } else {
        assert(pairs.push((k, v)).drop_first() =~= pairs.drop_first().push((k, v)));
        assert(es.push((ks, d)).drop_first() =~= es.drop_first().push((ks, d)));
        lemma_displays_pairs_push(pairs.drop_first(), es.drop_first(), k, v, ks, d);
        assert(pairs.push((k, v))[0] == pairs[0] && es.push((ks, d))[0] == es[0]);
    }
}

/// When the display conversion succeeds: every dictionary key anywhere in
/// the value is valid UTF-8 (byte-string contents need not be: they fall
/// back to hex).
pub open spec fn convertible(v: BencodeValue) -> bool
    decreases v,
{
    match v {
        BencodeValue::ByteString(_) => true,
        BencodeValue::Integer(_) => true,
        BencodeValue::List(items) => convertible_elems(items@),
        BencodeValue::Dictionary(pairs) => convertible_pairs(pairs@),
    }
}

/// [`convertible`] over every element of a list.
pub open spec fn convertible_elems(items: Seq<BencodeValue>) -> bool
    decreases items,
{
    items.len() == 0 || (convertible(items[0]) && convertible_elems(items.drop_first()))
}

/// [`convertible`] over every pair of a dictionary, keys included.
pub open spec fn convertible_pairs(pairs: Seq<(Vec<u8>, BencodeValue)>) -> bool
    decreases pairs,
{
    pairs.len() == 0 || (vstd::utf8::valid_utf8(pairs[0].0@) && convertible(pairs[0].1)
        && convertible_pairs(pairs.drop_first()))
}

proof fn lemma_convertible_elems_index(items: Seq<BencodeValue>, i: int)
    requires
        convertible_elems(items),
        0 <= i < items.len(),
    ensures
        convertible(items[i]),
    decreases i,
{
    if i > 0 {
        assert(items.drop_first()[i - 1] == items[i]);
        lemma_convertible_elems_index(items.drop_first(), i - 1);
    }
}

proof fn lemma_convertible_pairs_index(pairs: Seq<(Vec<u8>, BencodeValue)>, i: int)
    requires
        convertible_pairs(pairs),
        0 <= i < pairs.len(),
    ensures
        vstd::utf8::valid_utf8(pairs[i].0@),
        convertible(pairs[i].1),
    decreases i,
{
    if i > 0 {
        assert(pairs.drop_first()[i - 1] == pairs[i]);
        lemma_convertible_pairs_index(pairs.drop_first(), i - 1);
    }
}

proof fn lemma_displays_convertible(v: BencodeValue, d: DisplayValue)
    requires
        displays(v, d),
    ensures
        convertible(v),
    decreases v,
{
    match (v, d) {
        (BencodeValue::List(items), DisplayValue::Array(ds)) => {
            assert(decreases_to!(v => items@)) by {
                assert(items == v->List_0);
                assert(decreases_to!(v => v->List_0));
                assert(decreases_to!(items => items@));
            }
            lemma_displays_elems_convertible(items@, ds@);
        },
        (BencodeValue::Dictionary(pairs), DisplayValue::Object(es)) => {
            assert(decreases_to!(v => pairs@)) by {
                assert(pairs == v->Dictionary_0);
                assert(decreases_to!(v => v->Dictionary_0));
                assert(decreases_to!(pairs => pairs@));
            }
            lemma_displays_pairs_convertible(pairs@, es@);
        },
        _ => {},
    }
}

proof fn lemma_displays_elems_convertible(items: Seq<BencodeValue>, ds: Seq<DisplayValue>)
    requires
        displays_elems(items, ds),
    ensures
        convertible_elems(items),
    decreases items,
{
    if items.len() > 0 {
        lemma_displays_convertible(items[0], ds[0]);
        lemma_displays_elems_convertible(items.drop_first(), ds.drop_first());
    }
}

proof fn lemma_displays_pairs_convertible(
    pairs: Seq<(Vec<u8>, BencodeValue)>,
    es: Seq<(String, DisplayValue)>,
)
    requires
        displays_pairs(pairs, es),
    ensures
        convertible_pairs(pairs),
    decreases pairs,
{
    if pairs.len() > 0 {
        lemma_displays_convertible(pairs[0].1, es[0].1);
        lemma_displays_pairs_convertible(pairs.drop_first(), es.drop_first());
    }
}

/// Structurally equal values ([`crate::bencode::veq`]) are convertible or
/// not together: the display conversion reads only views.
proof fn lemma_veq_convertible(v1: BencodeValue, v2: BencodeValue)
    requires
        crate::bencode::veq(v1, v2),
    ensures
        convertible(v1) == convertible(v2),
    decreases v1,
{
    match (v1, v2) {
        (BencodeValue::List(a), BencodeValue::List(b)) => {
            assert(decreases_to!(v1 => a@)) by {
                assert(a == v1->List_0);
                assert(decreases_to!(v1 => v1->List_0));
                assert(decreases_to!(a => a@));
            }
            lemma_veq_convertible_elems(a@, b@);
        },
        (BencodeValue::Dictionary(a), BencodeValue::Dictionary(b)) => {
            assert(decreases_to!(v1 => a@)) by {
                assert(a == v1->Dictionary_0);
                assert(decreases_to!(v1 => v1->Dictionary_0));
                assert(decreases_to!(a => a@));
            }
            lemma_veq_convertible_pairs(a@, b@);
        },
        _ => {},
    }
}

proof fn lemma_veq_convertible_elems(l1: Seq<BencodeValue>, l2: Seq<BencodeValue>)
    requires
        crate::bencode::veq_elems(l1, l2),
    ensures
        convertible_elems(l1) == convertible_elems(l2),
    decreases l1,
{
    if l1.len() > 0 {
        lemma_veq_convertible(l1[0], l2[0]);
        lemma_veq_convertible_elems(l1.drop_first(), l2.drop_first());
    }
}

proof fn lemma_veq_convertible_pairs(
    p1: Seq<(Vec<u8>, BencodeValue)>,
    p2: Seq<(Vec<u8>, BencodeValue)>,
)
    requires
        crate::bencode::veq_pairs(p1, p2),
    ensures
        convertible_pairs(p1) == convertible_pairs(p2),
    decreases p1,
{
    if p1.len() > 0 {
        lemma_veq_convertible(p1[0].1, p2[0].1);
        lemma_veq_convertible_pairs(p1.drop_first(), p2.drop_first());
    }
}

/// Structurally equal dictionaries answer lookups alike: the same keys are
/// present, with structurally equal values.
proof fn lemma_veq_dict_lookup(
    p1: Seq<(Vec<u8>, BencodeValue)>,
    p2: Seq<(Vec<u8>, BencodeValue)>,
    key: Seq<u8>,
)
    requires
        crate::bencode::veq_pairs(p1, p2),
    ensures
        match (dict_lookup(p1, key), dict_lookup(p2, key)) {
            (Option::Some(a), Option::Some(b)) => crate::bencode::veq(a, b),
            (Option::None, Option::None) => true,
            _ => false,
        },
    decreases p1.len(),
{
    if p1.len() > 0 {
        assert(p1[0].0@ == p2[0].0@);
        if p1[0].0@ != key {
            lemma_veq_dict_lookup(p1.drop_first(), p2.drop_first(), key);
        }
    }
}

impl Torrent {
    /// Maps a decoded bencode value to its display form. Succeeds exactly
    /// when every dictionary key in the value is valid UTF-8; the error is a
    /// format error naming the offending part.
    #[verifier::loop_isolation(false)]
    pub fn convert(value: &BencodeValue) -> (r: Result<DisplayValue, TorrentError>)
        ensures
            r is Ok <==> convertible(*value),
            r matches Ok(d) ==> displays(*value, d),
            r matches Err(e) ==> e is Format,
        decreases *value,
    {
        match value {
            BencodeValue::ByteString(b) => match utf8_to_string(b) {
                Some(s) => Ok(DisplayValue::Text(s)),
                None => {
                    let hx = hex_ascii(b);
                    proof {
                        lemma_ascii_bytes(hx@);
                    }
                    match utf8_to_string(&hx) {
                        Some(s) => {
                            proof {
                                vstd::utf8::encode_utf8_decode_utf8(s@);
                            }
                            Ok(DisplayValue::Text(s))
                        },
                        None => {
                            proof {
                                assert(false);
                            }
                            Err(format_error("unreachable: hex is ASCII"))
                        },
                    }
                },
            },
            BencodeValue::Integer(n) => Ok(DisplayValue::Number(*n)),
            BencodeValue::List(items) => {
                let mut ds: Vec<DisplayValue> = Vec::new();
                let mut k: usize = 0;
                proof {
                    assert(items@.take(0) =~= Seq::<BencodeValue>::empty());
                }
                while k < items.len()
                    invariant
                        k <= items@.len(),
                        ds@.len() == k,
                        displays_elems(items@.take(k as int), ds@),
                    decreases items@.len() - k,
                {
                    proof {
                        assert(decreases_to!(*value => items@[k as int])) by {
                            assert(*items == (*value)->List_0);
                            assert(decreases_to!(*value => (*value)->List_0));
                            assert(decreases_to!(*items => items@));
                            assert(decreases_to!(items@ => items@[k as int]));
                        }
                    }
                    let d = match Self::convert(&items[k]) {
                        Ok(d) => d,
                        Err(e) => {
                            proof {
                                if convertible(*value) {
                                    lemma_convertible_elems_index(items@, k as int);
                                }
                            }
                            return Err(e);
                        },
                    };
                    proof {
                        lemma_displays_elems_push(items@.take(k as int), ds@, items@[k as int], d);
                        assert(items@.take(k as int + 1) =~= items@.take(k as int).push(
                            items@[k as int],
                        ));
                    }
                    ds.push(d);
                    k += 1;
                }
                proof {
                    assert(items@.take(items@.len() as int) =~= items@);
                }
                let r = DisplayValue::Array(ds);
                proof {
                    assert(displays(*value, r));
                    lemma_displays_convertible(*value, r);
                }
                Ok(r)
            },
            BencodeValue::Dictionary(pairs) => {
                let mut es: Vec<(String, DisplayValue)> = Vec::new();
                let mut k: usize = 0;
                proof {
                    assert(pairs@.take(0) =~= Seq::<(Vec<u8>, BencodeValue)>::empty());
                }
                while k < pairs.len()
                    invariant
                        k <= pairs@.len(),
                        es@.len() == k,
                        displays_pairs(pairs@.take(k as int), es@),
                    decreases pairs@.len() - k,
                {
                    let key = match utf8_to_string(&pairs[k].0) {
                        Some(s) => s,
                        None => {
                            proof {
                                if convertible(*value) {
                                    lemma_convertible_pairs_index(pairs@, k as int);
                                }
                            }
                            return Err(format_error("dictionary key is not UTF-8"));
                        },
                    };
                    proof {
                        assert(decreases_to!(*value => pairs@[k as int].1)) by {
                            assert(*pairs == (*value)->Dictionary_0);
                            assert(decreases_to!(*value => (*value)->Dictionary_0));
                            assert(decreases_to!(*pairs => pairs@));
                            assert(decreases_to!(pairs@ => pairs@[k as int]));
                            assert(decreases_to!(pairs@[k as int] => pairs@[k as int].1));
                        }
                    }
                    let d = match Self::convert(&pairs[k].1) {
                        Ok(d) => d,
                        Err(e) => {
                            proof {
                                if convertible(*value) {
                                    lemma_convertible_pairs_index(pairs@, k as int);
                                }
                            }
                            return Err(e);
                        },
                    };
                    proof {
                        lemma_displays_pairs_push(
                            pairs@.take(k as int),
                            es@,
                            pairs@[k as int].0,
                            pairs@[k as int].1,
                            key,
                            d,
                        );
                        assert(pairs@.take(k as int + 1) =~= pairs@.take(k as int).push(
                            pairs@[k as int],
                        ));
                    }
                    es.push((key, d));
                    k += 1;
                }
                proof {
                    assert(pairs@.take(pairs@.len() as int) =~= pairs@);
                }
                let r = DisplayValue::Object(es);
                proof {
                    assert(displays(*value, r));
                    lemma_displays_convertible(*value, r);
                }
                Ok(r)
            },
        }
    }

    /// Decodes an ad-hoc bencode input — raw bytes, or the UTF-8 bytes of a
    /// text — and maps it to its display form. Succeeds exactly when the
    /// input is the canonical encoding of some value all of whose dictionary
    /// keys are valid UTF-8; any failure is a format error.
    pub fn decode_bencoded_value(encoded_value: ENCODED) -> (r: Result<DisplayValue, TorrentError>)
        ensures
            r is Ok <==> exists|v: BencodeValue|
                #[trigger] enc(v) == encoded_bytes(encoded_value) && canonical(v) && convertible(
                    v,
                ),
            r matches Ok(d) ==> exists|v: BencodeValue|
                #[trigger] enc(v) == encoded_bytes(encoded_value) && canonical(v) && convertible(
                    v,
                ) && displays(v, d),
            r matches Err(e) ==> e is Format,
    {
        let bytes = match &encoded_value {
            ENCODED::Bytes(b) => copy_bytes(b),
            ENCODED::String(s) => vstd::string::StrSliceExecFns::as_bytes_vec(s.as_str()),
        };
        let v = match BencodeValue::decode(&bytes) {
            Ok(v) => v,
            Err(e) => {
                proof {
                    assert(!(exists|v2: BencodeValue|
                        #[trigger] enc(v2) == encoded_bytes(encoded_value) && canonical(v2)
                            && convertible(v2))) by {
                        if exists|v2: BencodeValue|
                            #[trigger] enc(v2) == encoded_bytes(encoded_value) && canonical(v2)
                                && convertible(v2) {
                            let v2 = choose|v2: BencodeValue|
                                #[trigger] enc(v2) == encoded_bytes(encoded_value) && canonical(
                                    v2,
                                ) && convertible(v2);
                            assert(exists|v3: BencodeValue|
                                canonical(v3) && #[trigger] enc(v3) == bytes@);
                            assert(false);
                        }
                    }
                }
                return Err(e);
            },
        };
        let d = match Self::convert(&v) {
            Ok(d) => d,
            Err(e) => {
                proof {
                    assert(!(exists|v2: BencodeValue|
                        #[trigger] enc(v2) == encoded_bytes(encoded_value) && canonical(v2)
                            && convertible(v2))) by {
                        if exists|v2: BencodeValue|
                            #[trigger] enc(v2) == encoded_bytes(encoded_value) && canonical(v2)
                                && convertible(v2) {
                            let v2 = choose|v2: BencodeValue|
                                #[trigger] enc(v2) == encoded_bytes(encoded_value) && canonical(
                                    v2,
                                ) && convertible(v2);
                            crate::bencode::lemma_enc_injective(v, v2);
                            lemma_veq_convertible(v, v2);
                            assert(false);
                        }
                    }
                }
                return Err(e);
            },
        };
        proof {
            assert(enc(v) == encoded_bytes(encoded_value) && canonical(v) && convertible(v)
                && displays(v, d));
        }
        Ok(d)
    }
}

/// The raw bytes that an [`ENCODED`] input stands for.
pub open spec fn encoded_bytes(e: ENCODED) -> Seq<u8> {
    match e {
        ENCODED::Bytes(b) => b@,
        ENCODED::String(s) => vstd::utf8::encode_utf8(s@),
    }
}

/// Law: the info-hash is a function of the `info` dictionary alone. Two
/// torrents with equal `info` have byte-identical info-hashes, whatever their
/// `announce` fields; and hashing the same torrent twice yields the same
/// bytes, since the hash is a pure function of the canonical `info` encoding.
pub proof fn lemma_info_hash_deterministic(t1: Torrent, t2: Torrent)
    requires
        t1.info == t2.info,
    ensures
        sha1_of(info_enc(t1.info)) == sha1_of(info_enc(t2.info)),
{
}

/// One peer from the tracker's compact list: four IPv4 octets and a port.
#[derive(Debug, Clone, Copy, PartialEq, Eq, Structural)]
pub struct PeerAddress {
    pub a: u8,
    pub b: u8,
    pub c: u8,
    pub d: u8,
    pub port: u16,
}

/// The peer encoded in the `k`-th 6-byte group of a compact peer string:
/// four IP octets then a big-endian port.
pub open spec fn peer_at(s: Seq<u8>, k: int) -> PeerAddress {
    PeerAddress {
        a: s[6 * k],
        b: s[6 * k + 1],
        c: s[6 * k + 2],
        d: s[6 * k + 3],
        port: (s[6 * k + 4] as int * 256 + s[6 * k + 5] as int) as u16,
    }
}

/// What a tracker response yields: a decoded dictionary whose `peers` entry
/// is a byte string of whole 6-byte groups, one [`PeerAddress`] per group, in
/// response order.
pub open spec fn peers_extracted(v: BencodeValue, ps: Seq<PeerAddress>) -> bool {
    v matches BencodeValue::Dictionary(dp) && (dict_lookup(dp@, peers_key()) matches Some(
        BencodeValue::ByteString(s),
    ) && s@.len() % 6 == 0 && ps.len() == s@.len() / 6 && (forall|k: int|
        0 <= k < ps.len() ==> ps[k] == peer_at(s@, k)))
}

/// A decoded tracker response of the right shape: a dictionary whose
/// `peers` entry is a byte string of whole 6-byte groups.
pub open spec fn peers_wellformed(v: BencodeValue) -> bool {
    v matches BencodeValue::Dictionary(dp) && (dict_lookup(dp@, peers_key()) matches Some(
        BencodeValue::ByteString(s),
    ) && s@.len() % 6 == 0)
}

impl Torrent {
    /// Decodes a tracker announce response body into its peer list.
    /// Succeeds exactly when the body is the canonical encoding of a
    /// dictionary whose `peers` entry is a byte string of whole 6-byte
    /// groups; it then returns one peer per group, in response order. A
    /// malformed body, a missing `peers` byte string, or a ragged length
    /// fails with a format error — never a silent truncation.
    pub fn peers_from_response(body: &Vec<u8>) -> (r: Result<Vec<PeerAddress>, TorrentError>)
        ensures
            r is Ok <==> exists|v: BencodeValue|
                canonical(v) && #[trigger] enc(v) == body@ && peers_wellformed(v),
            r matches Ok(ps) ==> exists|v: BencodeValue|
                #[trigger] enc(v) == body@ && canonical(v) && peers_extracted(v, ps@),
            r matches Err(e) ==> e is Format,
    {
        let v = match BencodeValue::decode(body) {
            Ok(v) => v,
            Err(e) => {
                proof {
                    assert(!(exists|v2: BencodeValue|
                        canonical(v2) && #[trigger] enc(v2) == body@ && peers_wellformed(v2)))
                        by {
                        if exists|v2: BencodeValue|
                            canonical(v2) && #[trigger] enc(v2) == body@ && peers_wellformed(
                                v2,
                            ) {
                            let v2 = choose|v2: BencodeValue|
                                canonical(v2) && #[trigger] enc(v2) == body@ && peers_wellformed(
                                    v2,
                                );
                            assert(exists|v3: BencodeValue|
                                canonical(v3) && #[trigger] enc(v3) == body@);
                            assert(false);
                        }
                    }
                }
                return Err(e);
            },
        };
        let dp = match &v {
            BencodeValue::Dictionary(dp) => dp,
            _ => {
                proof {
                    assert(!(exists|v2: BencodeValue|
                        canonical(v2) && #[trigger] enc(v2) == body@ && peers_wellformed(v2)))
                        by {
                        if exists|v2: BencodeValue|
                            canonical(v2) && #[trigger] enc(v2) == body@ && peers_wellformed(
                                v2,
                            ) {
                            let v2 = choose|v2: BencodeValue|
                                canonical(v2) && #[trigger] enc(v2) == body@ && peers_wellformed(
                                    v2,
                                );
                            crate::bencode::lemma_enc_injective(v, v2);
                            assert(false);
                        }
                    }
                }
                return Err(format_error("tracker: response is not a dictionary"));
            },
        };
        let peers_k: Vec<u8> = vec![112u8, 101u8, 101u8, 114u8, 115u8];
        proof {
            assert(peers_k@ =~= peers_key());
        }
        let got = dict_get(dp, &peers_k);
        let s = match got {
            Some(BencodeValue::ByteString(s)) => s,
            _ => {
                proof {
                    assert(!(exists|v2: BencodeValue|
                        canonical(v2) && #[trigger] enc(v2) == body@ && peers_wellformed(v2)))
                        by {
                        if exists|v2: BencodeValue|
                            canonical(v2) && #[trigger] enc(v2) == body@ && peers_wellformed(
                                v2,
                            ) {
                            let v2 = choose|v2: BencodeValue|
                                canonical(v2) && #[trigger] enc(v2) == body@ && peers_wellformed(
                                    v2,
                                );
                            crate::bencode::lemma_enc_injective(v, v2);
                            lemma_veq_dict_lookup(dp@, v2->Dictionary_0@, peers_key());
                            if got is None {
                                assert(false);
                            } else {
                                let x = got->0;
                                assert(dict_lookup(dp@, peers_key()) == Some(*x));
                                assert(false);
                            }
                        }
                    }
                }
                return Err(format_error("tracker: missing peers byte string"));
            },
        };
        if s.len() % 6 != 0 {
            proof {
                assert(!(exists|v2: BencodeValue|
                    canonical(v2) && #[trigger] enc(v2) == body@ && peers_wellformed(v2))) by {
                    if exists|v2: BencodeValue|
                        canonical(v2) && #[trigger] enc(v2) == body@ && peers_wellformed(v2) {
                        let v2 = choose|v2: BencodeValue|
                            canonical(v2) && #[trigger] enc(v2) == body@ && peers_wellformed(v2);
                        crate::bencode::lemma_enc_injective(v, v2);
                        lemma_veq_dict_lookup(dp@, v2->Dictionary_0@, peers_key());
                        assert(false);
                    }
                }
            }
            return Err(format_error("tracker: peers length is not a multiple of 6"));
        }
        let count = s.len() / 6;
        let mut ps: Vec<PeerAddress> = Vec::new();
        let mut p: usize = 0;
        while p < count
            invariant
                count == s@.len() / 6,
                s@.len() % 6 == 0,
                s@.len() <= usize::MAX,
                p <= count,
                ps@.len() == p,
                forall|q: int| 0 <= q < p ==> ps@[q] == peer_at(s@, q),
            decreases count - p,
        {
            proof {
                assert(6 * (p as int + 1) <= s@.len()) by (nonlinear_arith)
                    requires
                        0 <= (p as int),
                        (p as int) < s@.len() / 6,
                        s@.len() % 6 == 0,
                ;
            }
            let i = 6 * p;
            let port = (s[i + 4] as u16) * 256 + (s[i + 5] as u16);
            ps.push(PeerAddress { a: s[i], b: s[i + 1], c: s[i + 2], d: s[i + 3], port });
            p += 1;
        }
        proof {
            assert(peers_extracted(v, ps@));
            assert(enc(v) == body@ && canonical(v) && peers_extracted(v, ps@));
            assert(peers_wellformed(v));
            assert(enc(v) == body@ && canonical(v) && peers_wellformed(v));
        }
        Ok(ps)
    }
}

/// The literal part "info_hash=" of the announce query.
pub open spec fn query_prefix() -> Seq<u8> {
    seq![105u8, 110u8, 102u8, 111u8, 95u8, 104u8, 97u8, 115u8, 104u8, 61u8]
}

/// The literal parameters between the info-hash and the `left` value: the
/// fixed all-zero peer id, port 6881, zero uploaded and downloaded.
pub open spec fn query_mid() -> Seq<u8> {
    seq![38u8, 112u8, 101u8, 101u8, 114u8, 95u8, 105u8, 100u8, 61u8, 48u8, 48u8, 48u8, 48u8, 48u8, 48u8, 48u8, 48u8, 48u8, 48u8, 48u8, 48u8, 48u8, 48u8, 48u8, 48u8, 48u8, 48u8, 48u8, 48u8, 38u8, 112u8, 111u8, 114u8, 116u8, 61u8, 54u8, 56u8, 56u8, 49u8, 38u8, 117u8, 112u8, 108u8, 111u8, 97u8, 100u8, 101u8, 100u8, 61u8, 48u8, 38u8, 100u8, 111u8, 119u8, 110u8, 108u8, 111u8, 97u8, 100u8, 101u8, 100u8, 61u8, 48u8, 38u8, 108u8, 101u8, 102u8, 116u8, 61u8]
}

/// The literal trailing parameter requesting the compact peer format.
pub open spec fn query_tail() -> Seq<u8> {
    seq![38u8, 99u8, 111u8, 109u8, 112u8, 97u8, 99u8, 116u8, 61u8, 49u8]
}

/// The 20 hash bytes percent-encoded byte for byte: `%xx` with lowercase hex.
pub open spec fn percent_encoded(h: Seq<u8>) -> Seq<u8> {
    Seq::new(
        3 * h.len(),
        |i: int|
            if i % 3 == 0 {
                37u8
            } else if i % 3 == 1 {
                hex_digit(h[i / 3] / 16)
            } else {
                hex_digit(h[i / 3] % 16)
            },
    )
}

/// The full announce query string, as bytes: percent-encoded info-hash,
/// fixed peer id and port, zero counters, `left` as a decimal, `compact=1`.
pub open spec fn announce_query_bytes(hash: Seq<u8>, left: nat) -> Seq<u8> {
    query_prefix() + percent_encoded(hash) + query_mid() + dec_digits(left) + query_tail()
}

/// Appends the contents of `src` to `out`.
fn append_bytes(out: &mut Vec<u8>, src: &Vec<u8>)
    ensures
        final(out)@ == old(out)@ + src@,
{
    let mut k: usize = 0;
    while k < src.len()
        invariant
            k <= src@.len(),
            out@ == old(out)@ + src@.take(k as int),
        decreases src@.len() - k,
    {
        out.push(src[k]);
        assert(out@ =~= old(out)@ + src@.take(k as int + 1));
        k += 1;
    }
    proof {
        assert(old(out)@ + src@.take(src@.len() as int) =~= old(out)@ + src@);
    }
}

impl Torrent {
    /// Builds the byte-exact query string of the tracker announce request
    /// (everything after `?` in the GET URL), per the tracker wire contract.
    pub fn announce_query(&self) -> (r: Vec<u8>)
        requires
            self.info.wf(),
        ensures
            r@ == announce_query_bytes(
                sha1_of(info_enc(self.info)),
                self.info.length as nat,
            ),
    {
        let hash = self.get_info_hash();
        let mut out: Vec<u8> = vec![105u8, 110u8, 102u8, 111u8, 95u8, 104u8, 97u8, 115u8, 104u8, 61u8];
        proof {
            assert(out@ =~= query_prefix());
        }
        let ghost base = out@;
        let mut k: usize = 0;
        while k < hash.len()
            invariant
                k <= hash@.len(),
                out@.len() == base.len() + 3 * k,
                base == query_prefix(),
                forall|i: int|
                    0 <= i < base.len() ==> out@[i] == base[i],
                forall|i: int|
                    base.len() <= i < out@.len() ==> out@[i] == percent_encoded(hash@)[
                        i - base.len()
                    ],
            decreases hash@.len() - k,
        {
            let hi = hash[k] / 16;
            let lo = hash[k] % 16;
            out.push(37);
            out.push(if hi < 10 {
                hi + 48
            } else {
                hi + 87
            });
            out.push(if lo < 10 {
                lo + 48
            } else {
                lo + 87
            });
            k += 1;
        }
        proof {
            assert(out@ =~= query_prefix() + percent_encoded(hash@));
        }
        let midv: Vec<u8> = vec![38u8, 112u8, 101u8, 101u8, 114u8, 95u8, 105u8, 100u8, 61u8, 48u8, 48u8, 48u8, 48u8, 48u8, 48u8, 48u8, 48u8, 48u8, 48u8, 48u8, 48u8, 48u8, 48u8, 48u8, 48u8, 48u8, 48u8, 48u8, 48u8, 38u8, 112u8, 111u8, 114u8, 116u8, 61u8, 54u8, 56u8, 56u8, 49u8, 38u8, 117u8, 112u8, 108u8, 111u8, 97u8, 100u8, 101u8, 100u8, 61u8, 48u8, 38u8, 100u8, 111u8, 119u8, 110u8, 108u8, 111u8, 97u8, 100u8, 101u8, 100u8, 61u8, 48u8, 38u8, 108u8, 101u8, 102u8, 116u8, 61u8];
        proof {
            assert(midv@ =~= query_mid());
        }
        append_bytes(&mut out, &midv);
        crate::bencode::push_dec(self.info.length as u64, &mut out);
        let tailv: Vec<u8> = vec![38u8, 99u8, 111u8, 109u8, 112u8, 97u8, 99u8, 116u8, 61u8, 49u8];
        proof {
            assert(tailv@ =~= query_tail());
        }
        append_bytes(&mut out, &tailv);
        proof {
            assert(out@ =~= announce_query_bytes(
                sha1_of(info_enc(self.info)),
                self.info.length as nat,
            ));
        }
        out
    }
}

} // verus!
