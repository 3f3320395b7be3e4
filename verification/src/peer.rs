//! The peer-wire side: the 68-byte handshake message, the strictly ordered
//! block-request state machine that assembles one piece, and the orchestrator
//! helpers that rotate peers on failure and join piece results in index
//! order.
use crate::parsing::Torrent;
use crate::parsing::PeerAddress;
use crate::parsing::info_enc;
use crate::parsing::sha1_of;
use crate::types::PeerMessage;
use crate::types::PeerMessageType;
use crate::types::TorrentError;
use crate::types::sequence_error;
use crate::types::u32_be;
use vstd::prelude::*;

verus! {

broadcast use vstd::std_specs::vec::group_vec_axioms;

/// The fixed transfer block size: 16384 bytes.
pub open spec fn block_limit() -> int {
    16384
}

/// The ASCII bytes of the 19-byte protocol identifier string
/// "BitTorrent protocol".
pub open spec fn protocol_name() -> Seq<u8> {
    seq![
        66u8,
        105u8,
        116u8,
        84u8,
        111u8,
        114u8,
        114u8,
        101u8,
        110u8,
        116u8,
        32u8,
        112u8,
        114u8,
        111u8,
        116u8,
        111u8,
        99u8,
        111u8,
        108u8,
    ]
}

/// The exact 68 bytes sent (and expected back) in a handshake: length byte
/// 19, the protocol name, 8 reserved zero bytes, the 20-byte info-hash, and a
/// 20-byte all-zero peer id.
pub open spec fn handshake_bytes(hash: Seq<u8>) -> Seq<u8> {
    seq![19u8] + protocol_name() + Seq::new(8, |i: int| 0u8) + hash + Seq::new(20, |i: int| 0u8)
}

/// One tracker session: the torrent being downloaded and the peer list the
/// tracker announced, shared read-only by every per-piece task.
#[derive(Debug, Clone)]
pub struct Tracker {
    pub torrent: Torrent,
    pub peer_list: Vec<PeerAddress>,
}

impl Tracker {
    /// Packs a torrent and its announced peer list into a session.
    pub fn new(torrent: Torrent, peer_list: Vec<PeerAddress>) -> (t: Tracker)
        ensures
            t.torrent == torrent,
            t.peer_list == peer_list,
    {
        Tracker { torrent, peer_list }
    }

    /// Builds the 68-byte handshake message for this torrent, carrying its
    /// info-hash.
    pub fn create_handshake(&self) -> (r: Vec<u8>)
        requires
            self.torrent.info.wf(),
        ensures
            r@ == handshake_bytes(sha1_of(info_enc(self.torrent.info))),
            r@.len() == 68,
    {
        let hash = self.torrent.get_info_hash();
        let mut out: Vec<u8> = vec![
            19u8,
            66u8,
            105u8,
            116u8,
            84u8,
            111u8,
            114u8,
            114u8,
            101u8,
            110u8,
            116u8,
            32u8,
            112u8,
            114u8,
            111u8,
            116u8,
            111u8,
            99u8,
            111u8,
            108u8,
        ];
        let mut k: usize = 0;
        while k < 8
            invariant
                k <= 8,
                out@ == seq![19u8] + protocol_name() + Seq::new(k as nat, |i: int| 0u8),
            decreases 8 - k,
        {
            out.push(0);
            assert(out@ =~= seq![19u8] + protocol_name() + Seq::new(k as nat + 1, |i: int| 0u8));
            k += 1;
        }
        let ghost mid = out@;
        let mut k2: usize = 0;
        while k2 < hash.len()
            invariant
                k2 <= hash@.len(),
                out@ == mid + hash@.take(k2 as int),
                mid == seq![19u8] + protocol_name() + Seq::new(8, |i: int| 0u8),
            decreases hash@.len() - k2,
        {
            out.push(hash[k2]);
            assert(out@ =~= mid + hash@.take(k2 as int + 1));
            k2 += 1;
        }
        proof {
            assert(hash@.take(hash@.len() as int) =~= hash@);
        }
        let ghost mid2 = out@;
        let mut k3: usize = 0;
        while k3 < 20
            invariant
                k3 <= 20,
                out@ == mid2 + Seq::new(k3 as nat, |i: int| 0u8),
                mid2 == seq![19u8] + protocol_name() + Seq::new(8, |i: int| 0u8) + hash@,
            decreases 20 - k3,
        {
            out.push(0);
            assert(out@ =~= mid2 + Seq::new(k3 as nat + 1, |i: int| 0u8));
            k3 += 1;
        }
        proof {
            assert(out@ =~= handshake_bytes(hash@));
        }
        out
    }
}

/// The byte length of piece `piece_index`: the full `piece_length` for every
/// piece but possibly the last, which takes the remainder of the file.
pub fn piece_byte_length(total_length: usize, piece_length: usize, piece_index: usize) -> (r:
    usize)
    requires
        piece_length >= 1,
        (piece_index as int) * (piece_length as int) < total_length as int,
    ensures
        r as int == if total_length as int - (piece_index as int) * (piece_length as int)
            < piece_length as int {
            total_length as int - (piece_index as int) * (piece_length as int)
        } else {
            piece_length as int
        },
        1 <= r <= piece_length,
{
    let consumed = piece_index * piece_length;
    let remaining = total_length - consumed;
    if remaining < piece_length {
        remaining
    } else {
        piece_length
    }
}

/// The size of the block requested at `offset` within a piece of length
/// `piece_length`: a full 16384-byte block, or the remainder for the last
/// block.
pub open spec fn spec_block_size(piece_length: u32, offset: u32) -> int {
    if piece_length - offset < block_limit() {
        piece_length - offset
    } else {
        block_limit()
    }
}

/// A `Request` message for the given block: id 6, a 12-byte payload of three
/// big-endian fields (piece index, block offset, block size), and declared
/// length 13 — the payload length plus one for the id byte.
pub open spec fn is_request(m: PeerMessage, piece_index: u32, offset: u32, size: u32) -> bool {
    &&& m.id is Request
    &&& m.length == 13
    &&& m.payload@ == u32_be(piece_index) + u32_be(offset) + u32_be(size)
    &&& m.wf()
}

/// Appends the four big-endian bytes of `x`.
fn push_be(x: u32, out: &mut Vec<u8>)
    ensures
        final(out)@ == old(out)@ + u32_be(x),
{
    out.push((x / 0x1000000) as u8);
    out.push(((x / 0x10000) % 256) as u8);
    out.push(((x / 256) % 256) as u8);
    out.push((x % 256) as u8);
    assert(out@ =~= old(out)@ + u32_be(x));
}

/// Builds the `Request` message for one block. Its declared length is the
/// 12-byte payload plus one for the id byte.
pub fn build_request(piece_index: u32, offset: u32, size: u32) -> (m: PeerMessage)
    ensures
        is_request(m, piece_index, offset, size),
{
    let mut payload: Vec<u8> = Vec::new();
    push_be(piece_index, &mut payload);
    push_be(offset, &mut payload);
    push_be(size, &mut payload);
    PeerMessage { length: 13, id: PeerMessageType::Request, payload }
}

/// Where the downloader stands in the strictly ordered protocol sequence.
#[derive(Debug, Clone, Copy, PartialEq, Eq, Structural)]
pub enum DownloadStage {
    AwaitBitfield,
    AwaitUnchoke,
    Transfer,
    Complete,
}

/// The block-request state machine for one piece. The caller owns the socket
/// and the loop: it reads one peer message, hands it to [`PieceDownloader::on_message`],
/// sends the returned message if there is one, and stops once the stage is
/// `Complete`. The machine itself never touches a socket.
#[derive(Debug)]
pub struct PieceDownloader {
    pub piece_index: u32,
    pub piece_length: u32,
    pub offset: u32,
    pub data: Vec<u8>,
    pub stage: DownloadStage,
}

impl PieceDownloader {
    /// The machine's invariant: the buffer holds exactly the bytes below
    /// `offset`, and each stage pins where `offset` can stand.
    pub open spec fn wf(self) -> bool {
        &&& self.piece_length >= 1
        &&& self.data@.len() == self.offset
        &&& self.offset <= self.piece_length
        &&& (self.stage is AwaitBitfield ==> self.offset == 0)
        &&& (self.stage is AwaitUnchoke ==> self.offset == 0)
        &&& (self.stage is Transfer ==> self.offset < self.piece_length)
        &&& (self.stage is Complete ==> self.offset == self.piece_length)
    }

    /// Starts the download of one piece of the given byte length.
    pub fn new(piece_index: u32, piece_length: u32) -> (d: PieceDownloader)
        requires
            piece_length >= 1,
        ensures
            d.wf(),
            d.piece_index == piece_index,
            d.piece_length == piece_length,
            d.offset == 0,
            d.data@.len() == 0,
            d.stage is AwaitBitfield,
    {
        PieceDownloader {
            piece_index,
            piece_length,
            offset: 0,
            data: Vec::new(),
            stage: DownloadStage::AwaitBitfield,
        }
    }

    /// Feeds one received peer message to the state machine. Returns the next
    /// message to send, or `None` once the piece is complete. The sequence is
    /// strict: first `Bitfield` (answered with `Interested`), then `Unchoke`
    /// (answered with the first block `Request`), then one `Piece` per
    /// request, each appending its block data — the payload after the 8-byte
    /// index/offset header — in request order. Any other message id, or a
    /// block of the wrong size, is a protocol-sequence error and leaves the
    /// machine unchanged.
    pub fn on_message(&mut self, msg: &PeerMessage) -> (r: Result<
        Option<PeerMessage>,
        TorrentError,
    >)
        requires
            old(self).wf(),
        ensures
            final(self).wf(),
            final(self).piece_index == old(self).piece_index,
            final(self).piece_length == old(self).piece_length,
            r is Err ==> *final(self) == *old(self),
            r matches Err(e) ==> e is ProtocolSequence,
            old(self).stage is AwaitBitfield ==> {
                &&& (r is Ok <==> msg.id is Bitfield)
                &&& (r matches Ok(a) ==> {
                    &&& final(self).stage is AwaitUnchoke
                    &&& final(self).data == old(self).data
                    &&& a matches Some(m) && m.id is Interested && m.length == 1 && m.payload@.len()
                        == 0
                })
            },
            old(self).stage is AwaitUnchoke ==> {
                &&& (r is Ok <==> msg.id is Unchoke)
                &&& (r matches Ok(a) ==> {
                    &&& final(self).stage is Transfer
                    &&& final(self).data == old(self).data
                    &&& a matches Some(m) && is_request(
                        m,
                        old(self).piece_index,
                        0,
                        spec_block_size(old(self).piece_length, 0) as u32,
                    )
                })
            },
            old(self).stage is Transfer ==> {
                &&& (r is Ok <==> msg.id is Piece && msg.payload@.len() - 8 == spec_block_size(
                    old(self).piece_length,
                    old(self).offset,
                ))
                &&& (r matches Ok(a) ==> {
                    &&& final(self).data@ == old(self).data@ + msg.payload@.skip(8)
                    &&& final(self).offset == old(self).offset + spec_block_size(
                        old(self).piece_length,
                        old(self).offset,
                    )
                    &&& (final(self).offset < final(self).piece_length ==> final(self).stage
                        is Transfer && (a matches Some(m) && is_request(
                        m,
                        old(self).piece_index,
                        final(self).offset,
                        spec_block_size(old(self).piece_length, final(self).offset) as u32,
                    )))
                    &&& (final(self).offset == final(self).piece_length ==> final(self).stage
                        is Complete && a is None)
                })
            },
            old(self).stage is Complete ==> r is Err,
    {
        match self.stage {
            DownloadStage::AwaitBitfield => {
                if !matches!(msg.id, PeerMessageType::Bitfield) {
                    return Err(sequence_error("expected a bitfield message"));
                }
                self.stage = DownloadStage::AwaitUnchoke;
                Ok(
                    Some(
                        PeerMessage {
                            length: 1,
                            id: PeerMessageType::Interested,
                            payload: Vec::new(),
                        },
                    ),
                )
            },
            DownloadStage::AwaitUnchoke => {
                if !matches!(msg.id, PeerMessageType::Unchoke) {
                    return Err(sequence_error("expected an unchoke message"));
                }
                self.stage = DownloadStage::Transfer;
                let size = self.block_size();
                Ok(Some(build_request(self.piece_index, 0, size)))
            },
            DownloadStage::Transfer => {
                if !matches!(msg.id, PeerMessageType::Piece) {
                    return Err(sequence_error("expected a piece message"));
                }
                let size = self.block_size();
                if msg.payload.len() < 8 || msg.payload.len() - 8 != size as usize {
                    return Err(sequence_error("piece block has the wrong size"));
                }
                let mut k: usize = 8;
                while k < msg.payload.len()
                    invariant
                        8 <= k <= msg.payload@.len(),
                        self.data@ == old(self).data@ + msg.payload@.subrange(8, k as int),
                        self.piece_index == old(self).piece_index,
                        self.piece_length == old(self).piece_length,
                        self.offset == old(self).offset,
                        self.stage == old(self).stage,
                    decreases msg.payload@.len() - k,
                {
                    self.data.push(msg.payload[k]);
                    assert(self.data@ =~= old(self).data@ + msg.payload@.subrange(
                        8,
                        k as int + 1,
                    ));
                    k += 1;
                }
                proof {
                    assert(msg.payload@.subrange(8, msg.payload@.len() as int) =~= msg.payload@.skip(
                        8,
                    ));
                }
                self.offset = self.offset + size;
                if self.offset < self.piece_length {
                    let next = self.block_size();
                    Ok(Some(build_request(self.piece_index, self.offset, next)))
                } else {
                    self.stage = DownloadStage::Complete;
                    Ok(None)
                }
            },
            DownloadStage::Complete => Err(
                sequence_error("no message is expected after completion"),
            ),
        }
    }

    /// The size of the next block to request.
    fn block_size(&self) -> (r: u32)
        requires
            self.offset < self.piece_length,
        ensures
            r as int == spec_block_size(self.piece_length, self.offset),
            1 <= r <= 16384,
    {
        let remaining = self.piece_length - self.offset;
        if remaining < 16384 {
            remaining
        } else {
            16384
        }
    }

    /// True once every block has arrived and the buffer holds the full piece.
    pub fn is_complete(&self) -> (r: bool)
        ensures
            r == self.stage is Complete,
    {
        matches!(self.stage, DownloadStage::Complete)
    }

    /// Hands the assembled piece out; the buffer length equals the computed
    /// piece length.
    pub fn into_data(self) -> (r: Vec<u8>)
        requires
            self.wf(),
            self.stage is Complete,
        ensures
            r == self.data,
            r@.len() == self.piece_length,
    {
        self.data
    }
}

/// The concatenation of the given buffers, in index order.
pub open spec fn concat_pieces(ps: Seq<Vec<u8>>) -> Seq<u8>
    decreases ps.len(),
{
    if ps.len() == 0 {
        Seq::empty()
    } else {
        concat_pieces(ps.drop_last()) + ps.last()@
    }
}

/// Joins per-piece results into the final file buffer: the output is exactly
/// the concatenation of the pieces in ascending piece-index order, however
/// the results were produced or completed.
pub fn assemble_pieces(pieces: &Vec<Vec<u8>>) -> (r: Vec<u8>)
    ensures
        r@ == concat_pieces(pieces@),
{
    let mut out: Vec<u8> = Vec::new();
    let mut k: usize = 0;
    while k < pieces.len()
        invariant
            k <= pieces@.len(),
            out@ == concat_pieces(pieces@.take(k as int)),
        decreases pieces@.len() - k,
    {
        let mut j: usize = 0;
        let ghost base = out@;
        while j < pieces[k].len()
            invariant
                k < pieces@.len(),
                j <= pieces@[k as int]@.len(),
                out@ == base + pieces@[k as int]@.take(j as int),
            decreases pieces@[k as int]@.len() - j,
        {
            out.push(pieces[k][j]);
            assert(out@ =~= base + pieces@[k as int]@.take(j as int + 1));
            j += 1;
        }
        proof {
            assert(pieces@[k as int]@.take(pieces@[k as int]@.len() as int) =~= pieces@[
                k as int
            ]@);
            assert(pieces@.take(k as int + 1).drop_last() =~= pieces@.take(k as int));
            assert(pieces@.take(k as int + 1).last() == pieces@[k as int]);
        }
        k += 1;
    }
    proof {
        assert(pieces@.take(pieces@.len() as int) =~= pieces@);
    }
    out
}

/// Picks the peer for one download attempt and bounds the retries. Attempts
/// for piece `piece_index` start at position `piece_index mod peer_count` and
/// advance by one (wrapping) per failure, preserving the rotation order; once
/// `max_attempts` attempts have been spent the piece fails rather than
/// retrying forever.
pub fn retry_peer(piece_index: usize, attempt: usize, peer_count: usize, max_attempts: usize) -> (r:
    Option<usize>)
    requires
        peer_count >= 1,
        piece_index as int + attempt as int <= usize::MAX as int,
    ensures
        r is Some <==> attempt < max_attempts,
        r matches Some(p) ==> p as int == (piece_index as int + attempt as int) % (
        peer_count as int) && p < peer_count,
{
    if attempt >= max_attempts {
        return None;
    }
    Some((piece_index + attempt) % peer_count)
}

} // verus!
