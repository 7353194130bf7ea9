//! The messages of a channel between the parts of the evaluation, and the framing of the bytes of
//! a message sent on a channel encrypted with AES-128: the length of the payload, a magic string,
//! the payload and a zero padding up to a whole number of blocks, each block encrypted.

use crypto::aessafe::{AesSafe128Decryptor, AesSafe128Encryptor};
use crypto::symmetriccipher::{BlockDecryptor, BlockEncryptor};
use scrypt::{scrypt, ScryptParams};
use vstd::prelude::*;
use vstd::slice::slice_subrange;

verus! {

/// The content of a file sent in a channel: a chunk of data, or the end of the file.
#[derive(Debug, Clone, PartialEq, Eq)]
pub enum FileProtocol {
    /// A chunk of data.
    Data(Vec<u8>),
    /// The end of the file.
    End,
}

/// Message type that can be send in a channel.
#[derive(Debug, Clone)]
pub enum ChannelMessage<T> {
    /// The message is a normal application message of type T.
    Message(T),
    /// The message encodes a `FileProtocol` message. This variant is only used in local channels.
    FileProtocol(FileProtocol),
    /// Message telling the other end that a file is coming of the specified length. This variant is
    /// only used in remote channels.
    RawFileData(usize),
    /// Message telling the other end that the file is ended, i.e. this was the last chunk. This
    /// variant is only used in remote channels.
    RawFileEnd,
}

/// An error on a channel.
#[derive(Debug, Clone, Copy, PartialEq, Eq, Structural)]
pub enum ChannelError {
    /// An application message was expected.
    ExpectedMessage,
    /// A `FileProtocol` message was expected.
    ExpectedFileProtocol,
    /// A raw file message was expected.
    ExpectedRawFile,
    /// The frame was not encrypted with the key of this end.
    WrongEncryptionKey,
    /// The frame holds fewer blocks than its header announces.
    TruncatedFrame,
}

impl ChannelError {
    /// The message of the error.
    pub fn message(&self) -> (res: &'static str)
        ensures
            match self {
                ChannelError::ExpectedMessage => res@ == "Expected ChannelMessage::Message"@,
                ChannelError::ExpectedFileProtocol => res@ == "Expected ChannelMessage::FileProtocol"@,
                ChannelError::ExpectedRawFile => res@ == "Expected ChannelMessage::RawFileData or ChannelMessage::RawFileEnd"@,
                ChannelError::WrongEncryptionKey => res@ == "Wrong encryption key"@,
                ChannelError::TruncatedFrame => res@ == "The frame is shorter than its header says"@,
            },
    {
        match self {
            ChannelError::ExpectedMessage => "Expected ChannelMessage::Message",
            ChannelError::ExpectedFileProtocol => "Expected ChannelMessage::FileProtocol",
            ChannelError::ExpectedRawFile => "Expected ChannelMessage::RawFileData or ChannelMessage::RawFileEnd",
            ChannelError::WrongEncryptionKey => "Wrong encryption key",
            ChannelError::TruncatedFrame => "The frame is shorter than its header says",
        }
    }
}

/// What a remote channel does after a raw file message: read that many bytes of data, or end the
/// file.
#[derive(Debug, Clone, Copy, PartialEq, Eq, Structural)]
pub enum RawFileStep {
    /// Read this many bytes of file data.
    Data(usize),
    /// The file is ended.
    End,
}

/// The application message carried by a channel message, or the error of receiving another kind
/// of message.
pub fn expect_message<T>(message: ChannelMessage<T>) -> (res: Result<T, ChannelError>)
    ensures
        match message {
            ChannelMessage::Message(m) => res == Ok::<T, ChannelError>(m),
            _ => res == Err::<T, ChannelError>(ChannelError::ExpectedMessage),
        },
{
    match message {
        ChannelMessage::Message(m) => Ok(m),
        _ => Err(ChannelError::ExpectedMessage),
    }
}

/// The file message carried by a message of a local channel, or the error of receiving another
/// kind of message.
pub fn expect_local_file<T>(message: ChannelMessage<T>) -> (res: Result<FileProtocol, ChannelError>)
    ensures
        match message {
            ChannelMessage::FileProtocol(f) => res == Ok::<FileProtocol, ChannelError>(f),
            _ => res == Err::<FileProtocol, ChannelError>(ChannelError::ExpectedFileProtocol),
        },
{
    match message {
        ChannelMessage::FileProtocol(f) => Ok(f),
        _ => Err(ChannelError::ExpectedFileProtocol),
    }
}

/// What a message of a remote channel tells about the file being received, or the error of
/// receiving another kind of message.
pub fn expect_raw_file<T>(message: ChannelMessage<T>) -> (res: Result<RawFileStep, ChannelError>)
    ensures
        match message {
            ChannelMessage::RawFileData(n) => res == Ok::<RawFileStep, ChannelError>(RawFileStep::Data(n)),
            ChannelMessage::RawFileEnd => res == Ok::<RawFileStep, ChannelError>(RawFileStep::End),
            _ => res == Err::<RawFileStep, ChannelError>(ChannelError::ExpectedRawFile),
        },
{
    match message {
        ChannelMessage::RawFileData(n) => Ok(RawFileStep::Data(n)),
        ChannelMessage::RawFileEnd => Ok(RawFileStep::End),
        _ => Err(ChannelError::ExpectedRawFile),
    }
}

/// The messages sending a file on a remote channel: a data chunk is announced by its length and
/// followed by its bytes, the end of the file has its own message.
pub fn raw_file_message<T>(data: &FileProtocol) -> (res: ChannelMessage<T>)
    ensures
        match data {
            FileProtocol::Data(d) => res == ChannelMessage::<T>::RawFileData(d@.len() as usize),
            FileProtocol::End => res == ChannelMessage::<T>::RawFileEnd,
        },
{
    match data {
        FileProtocol::Data(d) => ChannelMessage::RawFileData(d.len()),
        FileProtocol::End => ChannelMessage::RawFileEnd,
    }
}

/// The AES-128 encryption of a block of 16 bytes with a key of 16 bytes.
pub uninterp spec fn aes128_encrypt(key: Seq<u8>, block: Seq<u8>) -> Seq<u8>;

/// The AES-128 decryption of a block of 16 bytes with a key of 16 bytes.
pub uninterp spec fn aes128_decrypt(key: Seq<u8>, block: Seq<u8>) -> Seq<u8>;

/// Encrypts a block with AES-128 (`AesSafe128Encryptor::new(key)` then `encrypt_block` of
/// rust-crypto): the result is the 16-byte encryption of the block under the key.
#[verifier::external_body]
fn encrypt_block(key: &[u8], block: &[u8]) -> (res: Vec<u8>)
    requires
        key@.len() == 16,
        block@.len() == 16,
    ensures
        res@ == aes128_encrypt(key@, block@),
        res@.len() == 16,
{
    let mut out = vec![0u8; 16];
    AesSafe128Encryptor::new(key).encrypt_block(block, &mut out);
    out
}

/// Decrypts a block with AES-128 (`AesSafe128Decryptor::new(key)` then `decrypt_block` of
/// rust-crypto): the result is the 16-byte decryption of the block under the key, which gives
/// back any block that the same key encrypted into it.
#[verifier::external_body]
fn decrypt_block(key: &[u8], block: &[u8]) -> (res: Vec<u8>)
    requires
        key@.len() == 16,
        block@.len() == 16,
    ensures
        res@ == aes128_decrypt(key@, block@),
        res@.len() == 16,
        forall|b: Seq<u8>| b.len() == 16 && block@ == aes128_encrypt(key@, b) ==> res@ == b,
{
    let mut out = vec![0u8; 16];
    AesSafe128Decryptor::new(key).decrypt_block(block, &mut out);
    out
}

/// The size of a block of AES.
pub open spec fn block_size() -> nat {
    16
}

/// The little-endian bytes of a 32-bit length.
pub open spec fn le32(n: nat) -> Seq<u8> {
    seq![(n % 256) as u8, ((n / 256) % 256) as u8, ((n / 65536) % 256) as u8, ((n / 16777216) % 256) as u8]
}

/// The length written in little-endian in the first four bytes.
pub open spec fn le32_value(b: Seq<u8>) -> nat {
    b[0] as nat + 256 * b[1] as nat + 65536 * b[2] as nat + 16777216 * b[3] as nat
}

/// The magic string that follows the length in the first block.
pub open spec fn magic() -> Seq<u8> {
    seq![69u8, 69u8, 69u8, 69u8]
}

/// The zero bytes that pad `n` bytes up to a whole number of blocks.
pub open spec fn padding(n: nat) -> Seq<u8> {
    Seq::new(((16 - n % 16) % 16) as nat, |i: int| 0u8)
}

/// The plain frame of a payload: its length, the magic string, the payload and the padding.
pub open spec fn plain_frame(data: Seq<u8>) -> Seq<u8> {
    let h = le32(data.len()) + magic() + data;
    h + padding(h.len())
}

/// The block at position `b` of a sequence of whole blocks.
pub open spec fn block_at(s: Seq<u8>, b: int) -> Seq<u8> {
    s.subrange(16 * b, 16 * b + 16)
}

/// `frame` is `plain`, a sequence of whole blocks, encrypted block by block with the key.
pub open spec fn encrypts(key: Seq<u8>, plain: Seq<u8>, frame: Seq<u8>) -> bool {
    &&& plain.len() % 16 == 0
    &&& frame.len() == plain.len()
    &&& forall|b: int| 0 <= b < plain.len() / 16 ==> (#[trigger] aes128_encrypt(key, block_at(plain, b))).len() == 16
    &&& forall|j: int| 0 <= j < frame.len() ==> #[trigger] frame[j] == aes128_encrypt(key, block_at(plain, j / 16))[j % 16]
}

/// The decryption, block by block, of a sequence of whole blocks.
pub open spec fn decrypt_blocks(key: Seq<u8>, frame: Seq<u8>) -> Seq<u8> {
    Seq::new(frame.len(), |j: int| aes128_decrypt(key, block_at(frame, j / 16))[j % 16])
}

/// The number of blocks that follow the first one in the frame of a payload of `len` bytes: the
/// first block holds the header and 8 bytes of payload.
pub open spec fn extra_blocks(len: nat) -> nat {
    if len <= 8 { 0 } else { ((len - 8 + 15) / 16) as nat }
}


/// Positions inside a block.
proof fn lemma_div16(i: int, k: int)
    requires
        0 <= i,
        0 <= k < 16,
    ensures
        (16 * i + k) / 16 == i,
        (16 * i + k) % 16 == k,
{
    assert((16 * i + k) / 16 == i) by (nonlinear_arith)
        requires
            0 <= i,
            0 <= k < 16,
    ;
    assert((16 * i + k) % 16 == k) by (nonlinear_arith)
        requires
            0 <= i,
            0 <= k < 16,
    ;
}

/// The length of a frame: the header, the payload and the padding fill whole blocks.
proof fn lemma_frame_len(n: nat)
    ensures
        (8 + n + (16 - (8 + n) % 16) % 16) == 16 * (1 + extra_blocks(n)),
        (8 + n + (16 - (8 + n) % 16) % 16) % 16 == 0,
{
    assert((8 + n + (16 - (8 + n) % 16) % 16) == 16 * (1 + (if n <= 8 { 0 } else { ((n - 8 + 15) / 16) as nat }))) by (nonlinear_arith);
    assert((8 + n + (16 - (8 + n) % 16) % 16) % 16 == 0) by (nonlinear_arith);
}

/// The little-endian bytes of a 32-bit length give back the length.
proof fn lemma_le32(n: u32)
    ensures
        le32_value(le32(n as nat)) == n,
{
    let b0: u32 = n % 256;
    let b1: u32 = (n / 256) % 256;
    let b2: u32 = (n / 65536) % 256;
    let b3: u32 = (n / 16777216) % 256;
    assert(b0 + 256 * b1 + 65536 * b2 + 16777216 * b3 == n) by (bit_vector)
        requires
            b0 == n % 256,
            b1 == (n / 256) % 256,
            b2 == (n / 65536) % 256,
            b3 == (n / 16777216) % 256,
    ;
    assert(le32(n as nat)[0] as nat == b0);
    assert(le32(n as nat)[1] as nat == b1);
    assert(le32(n as nat)[2] as nat == b2);
    assert(le32(n as nat)[3] as nat == b3);
}

/// Encrypt a buffer, including its length, into a buffer that is a multiple of the block length:
/// the length (32 bits, little-endian), the magic string, the payload and a zero padding, each
/// block encrypted with AES-128 under the key.
pub fn encrypt_buffer(data: Vec<u8>, key: &[u8]) -> (res: Vec<u8>)
    requires
        key@.len() == 16,
        data@.len() <= u32::MAX,
        data@.len() + 24 <= usize::MAX,
    ensures
        encrypts(key@, plain_frame(data@), res@),
        res@.len() == 16 * (1 + extra_blocks(data@.len())),
{
    let n = data.len();
    let n32 = n as u32;
    let mut buf: Vec<u8> = Vec::new();
    buf.push((n32 % 256) as u8);
    buf.push(((n32 / 256) % 256) as u8);
    buf.push(((n32 / 65536) % 256) as u8);
    buf.push(((n32 / 16777216) % 256) as u8);
    buf.push(69);
    buf.push(69);
    buf.push(69);
    buf.push(69);
    proof { assert(buf@ =~= le32(n as nat) + magic()); }
    let mut i: usize = 0;
    while i < n
        invariant
            n == data@.len(),
            n + 24 <= usize::MAX,
            i <= n,
            buf@ == le32(n as nat) + magic() + data@.take(i as int),
        decreases n - i,
    {
        buf.push(data[i]);
        proof { assert(buf@ =~= le32(n as nat) + magic() + data@.take(i + 1)); }
        i += 1;
    }
    proof { assert(data@.take(n as int) =~= data@); }
    let ghost h = buf@;
    let pad = (16 - buf.len() % 16) % 16;
    let mut k: usize = 0;
    while k < pad
        invariant
            pad == (16 - h.len() % 16) % 16,
            h.len() == n + 8,
            n + 24 <= usize::MAX,
            k <= pad,
            buf@ == h + Seq::new(k as nat, |j: int| 0u8),
        decreases pad - k,
    {
        buf.push(0);
        proof { assert(buf@ =~= h + Seq::new((k + 1) as nat, |j: int| 0u8)); }
        k += 1;
    }
    proof {
        assert(buf@ =~= plain_frame(data@));
        lemma_frame_len(n as nat);
    }
    let ghost pf = buf@;
    let nb = buf.len() / 16;
    let mut out: Vec<u8> = Vec::new();
    let mut b: usize = 0;
    while b < nb
        invariant
            pf == buf@,
            pf.len() <= usize::MAX,
            pf.len() % 16 == 0,
            nb == pf.len() / 16,
            b <= nb,
            key@.len() == 16,
            out@.len() == 16 * b,
            forall|c: int| 0 <= c < b ==> (#[trigger] aes128_encrypt(key@, block_at(pf, c))).len() == 16,
            forall|j: int| 0 <= j < out@.len() ==> #[trigger] out@[j] == aes128_encrypt(key@, block_at(pf, j / 16))[j % 16],
        decreases nb - b,
    {
        proof {
            assert(16 * b + 16 <= pf.len()) by (nonlinear_arith)
                requires
                    b < nb,
                    nb == pf.len() / 16,
                    pf.len() % 16 == 0,
            ;
        }
        let blk = encrypt_block(key, slice_subrange(buf.as_slice(), 16 * b, 16 * b + 16));
        let ghost base = out@;
        let mut k: usize = 0;
        while k < 16
            invariant
                k <= 16,
                blk@.len() == 16,
                out@.len() == base.len() + k,
                forall|j: int| 0 <= j < base.len() ==> out@[j] == base[j],
                forall|j: int| 0 <= j < base.len() ==> #[trigger] base[j] == aes128_encrypt(key@, block_at(pf, j / 16))[j % 16],
                forall|j: int| 0 <= j < k ==> out@[base.len() + j] == blk@[j],
            decreases 16 - k,
        {
            out.push(blk[k]);
            k += 1;
        }
        proof {
            assert forall|j: int| 0 <= j < out@.len() implies #[trigger] out@[j] == aes128_encrypt(key@, block_at(pf, j / 16))[j % 16] by {
                if j >= base.len() {
                    lemma_div16(b as int, j - 16 * b);
                    assert(out@[j] == blk@[j - base.len()]);
                } else {
                    assert(out@[j] == base[j]);
                }
            }
        }
        b += 1;
    }
    proof {
        assert forall|c: int| 0 <= c < pf.len() / 16 implies (#[trigger] aes128_encrypt(key@, block_at(pf, c))).len() == 16 by {}
    }
    out
}

/// The length announced by the first block of a frame, once decrypted, or the error of a frame
/// encrypted with another key (the magic string does not match). The first block of the frame of
/// a payload announces the length of the payload.
pub fn decrypt_header(key: &[u8], block: &[u8]) -> (res: Result<usize, ChannelError>)
    requires
        key@.len() == 16,
        block@.len() == 16,
    ensures
        aes128_decrypt(key@, block@).subrange(4, 8) == magic()
            ==> res == Ok::<usize, ChannelError>(le32_value(aes128_decrypt(key@, block@)) as usize),
        aes128_decrypt(key@, block@).subrange(4, 8) != magic()
            ==> res == Err::<usize, ChannelError>(ChannelError::WrongEncryptionKey),
        forall|data: Seq<u8>| data.len() <= u32::MAX && #[trigger] aes128_encrypt(key@, block_at(plain_frame(data), 0)) == block@
            ==> res == Ok::<usize, ChannelError>(data.len() as usize),
{
    let p = decrypt_block(key, block);
    proof {
        assert forall|data: Seq<u8>| data.len() <= u32::MAX && #[trigger] aes128_encrypt(key@, block_at(plain_frame(data), 0)) == block@
            implies p@.subrange(4, 8) == magic() && le32_value(p@) == data.len() by {
            let pf = plain_frame(data);
            assert(block_at(pf, 0).len() == 16);
            assert(p@ == block_at(pf, 0));
            assert(p@.subrange(4, 8) =~= magic());
            lemma_le32(data.len() as u32);
            assert(p@[0] == le32(data.len())[0] && p@[1] == le32(data.len())[1]);
            assert(p@[2] == le32(data.len())[2] && p@[3] == le32(data.len())[3]);
        }
    }
    if p[4] != 69 || p[5] != 69 || p[6] != 69 || p[7] != 69 {
        proof {
            assert(p@.subrange(4, 8) != magic()) by {
                if p@.subrange(4, 8) == magic() {
                    assert(p@.subrange(4, 8)[0] == p@[4]);
                    assert(p@.subrange(4, 8)[1] == p@[5]);
                    assert(p@.subrange(4, 8)[2] == p@[6]);
                    assert(p@.subrange(4, 8)[3] == p@[7]);
                }
            }
        }
        return Err(ChannelError::WrongEncryptionKey);
    }
    proof { assert(p@.subrange(4, 8) =~= magic()); }
    let len: u32 = p[0] as u32 + 256 * (p[1] as u32) + 65536 * (p[2] as u32) + 16777216 * (p[3] as u32);
    Ok(len as usize)
}

/// The frame decrypted block by block; the decryption of the frame made from a plain frame is
/// that plain frame.
fn decrypt_all(key: &[u8], frame: &[u8]) -> (plain: Vec<u8>)
    requires
        key@.len() == 16,
        frame@.len() % 16 == 0,
    ensures
        plain@ == decrypt_blocks(key@, frame@),
        forall|data: Seq<u8>| #[trigger] encrypts(key@, plain_frame(data), frame@) ==> plain@ == plain_frame(data),
{
    let ghost dp = decrypt_blocks(key@, frame@);
    let flen = frame.len();
    let nb = flen / 16;
    let mut plain: Vec<u8> = Vec::new();
    let mut b: usize = 0;
    while b < nb
        invariant
            key@.len() == 16,
            flen == frame@.len(),
            frame@.len() % 16 == 0,
            nb == frame@.len() / 16,
            dp == decrypt_blocks(key@, frame@),
            b <= nb,
            plain@ == dp.take(16 * b),
            forall|data: Seq<u8>| #[trigger] encrypts(key@, plain_frame(data), frame@)
                ==> plain@ == plain_frame(data).take(16 * b),
        decreases nb - b,
    {
        proof {
            assert(16 * b + 16 <= frame@.len()) by (nonlinear_arith)
                requires
                    b < nb,
                    nb == frame@.len() / 16,
                    frame@.len() % 16 == 0,
            ;
        }
        let blk_ref = slice_subrange(frame, 16 * b, 16 * b + 16);
        let blk = decrypt_block(key, blk_ref);
        let ghost base = plain@;
        let mut k: usize = 0;
        while k < 16
            invariant
                k <= 16,
                blk@.len() == 16,
                plain@ == base + blk@.take(k as int),
            decreases 16 - k,
        {
            plain.push(blk[k]);
            proof { assert(plain@ =~= base + blk@.take(k + 1)); }
            k += 1;
        }
        proof {
            assert(blk@.take(16) =~= blk@);
            assert(plain@ =~= dp.take(16 * b + 16)) by {
                assert forall|j: int| 0 <= j < 16 * b + 16 implies plain@[j] == dp[j] by {
                    if j >= 16 * b {
                        lemma_div16(b as int, j - 16 * b);
                        assert(block_at(frame@, b as int) =~= blk_ref@);
                    }
                }
            }
            assert forall|data: Seq<u8>| #[trigger] encrypts(key@, plain_frame(data), frame@)
                implies plain@ == plain_frame(data).take(16 * b + 16) by {
                let pf = plain_frame(data);
                assert(aes128_encrypt(key@, block_at(pf, b as int)).len() == 16);
                assert(blk_ref@ =~= aes128_encrypt(key@, block_at(pf, b as int))) by {
                    assert forall|k2: int| 0 <= k2 < 16 implies blk_ref@[k2] == aes128_encrypt(key@, block_at(pf, b as int))[k2] by {
                        lemma_div16(b as int, k2);
                        assert(blk_ref@[k2] == frame@[16 * b + k2]);
                    }
                }
                assert(block_at(pf, b as int).len() == 16);
                assert(blk@ == block_at(pf, b as int));
                assert(plain@ =~= pf.take(16 * b + 16));
            }
        }
        b += 1;
    }
    proof {
        assert(16 * nb == frame@.len()) by (nonlinear_arith)
            requires
                nb == frame@.len() / 16,
                frame@.len() % 16 == 0,
        ;
        assert(plain@ =~= dp);
        assert forall|data: Seq<u8>| #[trigger] encrypts(key@, plain_frame(data), frame@) implies plain@ == plain_frame(data) by {
            assert(plain_frame(data).take(16 * nb) =~= plain_frame(data));
        }
    }
    plain
}

/// The payload of a frame: the blocks are decrypted, the magic string must match (otherwise the
/// frame was encrypted with another key), and the payload is the announced number of bytes after
/// the header, which the frame must hold. The payload of the frame made from a payload is that
/// payload.
pub fn decrypt_buffer(key: &[u8], frame: &[u8]) -> (res: Result<Vec<u8>, ChannelError>)
    requires
        key@.len() == 16,
        frame@.len() % 16 == 0,
        frame@.len() >= 16,
    ensures
        decrypt_blocks(key@, frame@).subrange(4, 8) != magic()
            ==> res == Err::<Vec<u8>, ChannelError>(ChannelError::WrongEncryptionKey),
        decrypt_blocks(key@, frame@).subrange(4, 8) == magic() && le32_value(decrypt_blocks(key@, frame@)) + 8 > frame@.len()
            ==> res == Err::<Vec<u8>, ChannelError>(ChannelError::TruncatedFrame),
        decrypt_blocks(key@, frame@).subrange(4, 8) == magic() && le32_value(decrypt_blocks(key@, frame@)) + 8 <= frame@.len()
            ==> (res matches Ok(v) && v@ == decrypt_blocks(key@, frame@).subrange(8, 8 + le32_value(decrypt_blocks(key@, frame@)) as int)),
        forall|data: Seq<u8>| data.len() <= u32::MAX && #[trigger] encrypts(key@, plain_frame(data), frame@)
            ==> (res matches Ok(v) && v@ == data),
{
    let ghost dp = decrypt_blocks(key@, frame@);
    let plain = decrypt_all(key, frame);
    if plain[4] != 69 || plain[5] != 69 || plain[6] != 69 || plain[7] != 69 {
        proof {
            assert(dp.subrange(4, 8) != magic()) by {
                if dp.subrange(4, 8) == magic() {
                    assert(dp.subrange(4, 8)[0] == dp[4]);
                    assert(dp.subrange(4, 8)[1] == dp[5]);
                    assert(dp.subrange(4, 8)[2] == dp[6]);
                    assert(dp.subrange(4, 8)[3] == dp[7]);
                }
            }
            assert forall|data: Seq<u8>| data.len() <= u32::MAX && #[trigger] encrypts(key@, plain_frame(data), frame@)
                implies false by {
                let pf = plain_frame(data);
                assert(plain@ == pf);
                assert(pf[4] == 69u8 && pf[5] == 69u8 && pf[6] == 69u8 && pf[7] == 69u8);
            }
        }
        return Err(ChannelError::WrongEncryptionKey);
    }
    proof { assert(dp.subrange(4, 8) =~= magic()); }
    let len: u32 = plain[0] as u32 + 256 * (plain[1] as u32) + 65536 * (plain[2] as u32) + 16777216 * (plain[3] as u32);
    let len = len as usize;
    if len > plain.len() - 8 {
        proof {
            assert forall|data: Seq<u8>| data.len() <= u32::MAX && #[trigger] encrypts(key@, plain_frame(data), frame@)
                implies false by {
                let pf = plain_frame(data);
                assert(plain@ == pf);
                lemma_le32(data.len() as u32);
                assert(pf[0] == le32(data.len())[0] && pf[1] == le32(data.len())[1]);
                assert(pf[2] == le32(data.len())[2] && pf[3] == le32(data.len())[3]);
            }
        }
        return Err(ChannelError::TruncatedFrame);
    }
    let out = slice_to_vec_range(&plain, 8, 8 + len);
    proof {
        assert forall|data: Seq<u8>| data.len() <= u32::MAX && #[trigger] encrypts(key@, plain_frame(data), frame@)
            implies out@ == data by {
            let pf = plain_frame(data);
            assert(plain@ == pf);
            lemma_le32(data.len() as u32);
            assert(pf[0] == le32(data.len())[0] && pf[1] == le32(data.len())[1]);
            assert(pf[2] == le32(data.len())[2] && pf[3] == le32(data.len())[3]);
            assert(len == data.len());
            assert(out@ =~= data);
        }
    }
    Ok(out)
}

/// The bytes `v[lo..hi]`.
fn slice_to_vec_range(v: &Vec<u8>, lo: usize, hi: usize) -> (res: Vec<u8>)
    requires
        lo <= hi <= v@.len(),
    ensures
        res@ == v@.subrange(lo as int, hi as int),
{
    let mut out: Vec<u8> = Vec::new();
    let mut i = lo;
    while i < hi
        invariant
            lo <= i <= hi <= v@.len(),
            out@ == v@.subrange(lo as int, i as int),
        decreases hi - i,
    {
        out.push(v[i]);
        proof { assert(out@ =~= v@.subrange(lo as int, i + 1)); }
        i += 1;
    }
    out
}

/// The number of blocks that follow the first one in the frame of a payload of `len` bytes.
pub fn frame_extra_blocks(len: usize) -> (res: usize)
    ensures
        res == extra_blocks(len as nat),
{
    if len <= 8 {
        0
    } else {
        (len - 8) / 16 + if (len - 8) % 16 == 0 { 0 } else { 1 }
    }
}


/// The key of `dk_len` bytes derived by scrypt from a password and a salt with the given cost
/// parameters.
pub uninterp spec fn scrypt_key(password: Seq<u8>, salt: Seq<u8>, log_n: u8, r: u32, p: u32) -> Seq<u8>;

/// The 32-byte key derived from the password and the salt by `scrypt::scrypt` of the scrypt crate
/// with `ScryptParams::new(log_n, r, p)`; with these small parameters the parameters are valid and
/// the derivation does not fail.
#[verifier::external_body]
fn scrypt_32(password: &[u8], salt: &[u8], log_n: u8, r: u32, p: u32) -> (res: [u8; 32])
    requires
        0 < r <= 16,
        0 < p <= 16,
        log_n < 16,
        log_n < 16 * r,
    ensures
        res@ == scrypt_key(password@, salt@, log_n, r, p),
{
    let mut key = [0u8; 32];
    scrypt(password, salt, &ScryptParams::new(log_n, r, p).unwrap(), &mut key).unwrap();
    key
}

/// The salt of the keys derived from passwords: the bytes of `task-maker`.
pub open spec fn key_salt() -> Seq<u8> {
    seq![116u8, 97u8, 115u8, 107u8, 45u8, 109u8, 97u8, 107u8, 101u8, 114u8]
}

/// Derive the encryption key from a password string: scrypt with `N = 2^8`, `r = 8`, `p = 1`
/// and the salt `task-maker`.
pub fn derive_key_from_password(password: &str) -> (res: [u8; 32])
    ensures
        res@ == scrypt_key(vstd::string::StringSliceAdditionalSpecFns::spec_bytes(password), key_salt(), 8, 8, 1),
{
    let salt: Vec<u8> = vec![116u8, 97u8, 115u8, 107u8, 45u8, 109u8, 97u8, 107u8, 101u8, 114u8];
    proof { assert(salt@ =~= key_salt()); }
    scrypt_32(password.as_bytes(), salt.as_slice(), 8, 8, 1)
}

} // verus!
