//! The compressors behind an archive stream.

use vstd::prelude::*;
use std::io::{Read, Write};
use xz2::stream::{Check, Filters, LzmaOptions, MtStreamBuilder, Stream};
use xz2::write::XzEncoder;
use self::Bcj::{Arm, ArmThumb, Ia64, Off, PowerPc, Sparc, X86};

verus! {

/// The failure of a compressor.
#[verifier::external_type_specification]
#[verifier::external_body]
pub struct ExIoError(std::io::Error);

/// A branch filter in front of LZMA, for machine code.
#[derive(Clone, Copy, Debug, PartialEq, Eq, Structural)]
pub enum Bcj {
    Off,
    X86,
    Arm,
    ArmThumb,
    Ia64,
    Sparc,
    PowerPc,
}

/// Settings of the LZMA filter chain.
#[derive(Clone, Copy, Debug, PartialEq, Eq, Structural)]
pub struct LzmaChain {
    pub preset: u32,
    pub lc: u32,
    pub lp: u32,
    pub pb: u32,
    pub nice_len: u32,
    pub dict_size: u32,
    pub bcj: Bcj,
}

/// The greatest window that a zstd decoder takes unless it is told otherwise.
pub const MAX_WINDOW_LOG: u32 = 27;

/// The zstd frame of `data`, with a dictionary, a level, worker threads, a
/// window size (zero for that of the level) and long-distance matching.
pub uninterp spec fn zstd_frame(
    data: Seq<u8>,
    dict: Seq<u8>,
    level: i32,
    threads: u32,
    window_log: u32,
    long: bool,
) -> Seq<u8>;

/// The zstd frame of `data` as [`zstd_frame`], but with the strategy
/// `ZSTD_btultra2` and search settings of its own.
pub uninterp spec fn zstd_ultra_frame(
    data: Seq<u8>,
    dict: Seq<u8>,
    level: i32,
    threads: u32,
    window_log: u32,
    long: bool,
    chain_log: u32,
    hash_log: u32,
    search_log: u32,
    target_length: u32,
) -> Seq<u8>;

/// What a sequence of zstd frames holds, read with a dictionary.
pub uninterp spec fn zstd_contents(frames: Seq<u8>, dict: Seq<u8>) -> Option<Seq<u8>>;

/// The xz stream of `data`, in one block.
pub uninterp spec fn xz_stream(data: Seq<u8>, chain: LzmaChain) -> Seq<u8>;

/// The xz stream of `data`, in blocks of `block` bytes.
pub uninterp spec fn xz_blocks(data: Seq<u8>, chain: LzmaChain, threads: u32, block: u64) -> Seq<u8>;

/// The first byte of every xz stream.
pub open spec fn starts_xz(s: Seq<u8>) -> bool {
    s.len() > 0 && s[0] == 0xFD
}

/// What a sequence of xz streams holds.
pub uninterp spec fn xz_contents(streams: Seq<u8>) -> Option<Seq<u8>>;

/// The PPMd7 stream of `data`, with its end mark.
pub uninterp spec fn ppmd_stream(data: Seq<u8>, order: u32, mem: u32) -> Seq<u8>;

/// What a PPMd7 stream holds up to its end mark, or up to its end where there is
/// no mark.
pub uninterp spec fn ppmd_contents(stream: Seq<u8>, order: u32, mem: u32) -> Option<Seq<u8>>;

/// Compresses with `zstd::stream::Encoder`, the frame with a checksum. Where it
/// succeeds, the frame depends on the arguments alone, a decoder gives the
/// data back, and a frame behind others continues what they hold. The window is
/// bounded because the decoder refuses a frame with a greater one. It may fail
/// for want of memory, so nothing is said of failure.
#[verifier::external_body]
pub(crate) fn zstd_encode(
    data: &[u8],
    dict: &[u8],
    level: i32,
    threads: u32,
    window_log: u32,
    long: bool,
) -> (res: Result<Vec<u8>, std::io::Error>)
    requires
        window_log <= MAX_WINDOW_LOG,
    ensures
        res matches Ok(c) ==> c@ == zstd_frame(data@, dict@, level, threads, window_log, long),
        res matches Ok(c) ==> zstd_contents(c@, dict@) == Some(data@),
        res matches Ok(c) ==> forall|before: Seq<u8>, x: Seq<u8>|
            zstd_contents(before, dict@) == Some(x) ==> #[trigger] zstd_contents(
                before + c@,
                dict@,
            ) == Some(#[trigger] (x + data@)),
{
    let mut enc = zstd::stream::Encoder::with_dictionary(Vec::new(), level, dict)?;
    let _ = enc.multithread(threads);
    let _ = enc.include_checksum(true);
    let _ = enc.window_log(window_log);
    let _ = enc.long_distance_matching(long);
    enc.write_all(data)?;
    enc.finish()
}

/// Compresses with `zstd::stream::Encoder` as [`zstd_encode`] does, with the
/// strategy `ZSTD_btultra2` and the given search settings.
#[verifier::external_body]
pub(crate) fn zstd_encode_ultra(
    data: &[u8],
    dict: &[u8],
    level: i32,
    threads: u32,
    window_log: u32,
    long: bool,
    chain_log: u32,
    hash_log: u32,
    search_log: u32,
    target_length: u32,
) -> (res: Result<Vec<u8>, std::io::Error>)
    requires
        window_log <= MAX_WINDOW_LOG,
    ensures
        res matches Ok(c) ==> c@ == zstd_ultra_frame(
            data@,
            dict@,
            level,
            threads,
            window_log,
            long,
            chain_log,
            hash_log,
            search_log,
            target_length,
        ),
        res matches Ok(c) ==> zstd_contents(c@, dict@) == Some(data@),
        res matches Ok(c) ==> forall|before: Seq<u8>, x: Seq<u8>|
            zstd_contents(before, dict@) == Some(x) ==> #[trigger] zstd_contents(
                before + c@,
                dict@,
            ) == Some(#[trigger] (x + data@)),
{
    let mut enc = zstd::stream::Encoder::with_dictionary(Vec::new(), level, dict)?;
    let _ = enc.multithread(threads);
    let _ = enc.include_checksum(true);
    let _ = enc.window_log(window_log);
    let _ = enc.long_distance_matching(long);
    let ultra = zstd::zstd_safe::Strategy::ZSTD_btultra2;
    let _ = enc.set_parameter(zstd::zstd_safe::CParameter::Strategy(ultra));
    let _ = enc.set_parameter(zstd::zstd_safe::CParameter::ChainLog(chain_log));
    let _ = enc.set_parameter(zstd::zstd_safe::CParameter::HashLog(hash_log));
    let _ = enc.set_parameter(zstd::zstd_safe::CParameter::SearchLog(search_log));
    let _ = enc.set_parameter(zstd::zstd_safe::CParameter::TargetLength(target_length));
    enc.write_all(data)?;
    enc.finish()
}

/// Decompresses all frames with `zstd::stream::Decoder`. Where it succeeds, the
/// result depends on the arguments alone. It may fail for want of memory, so
/// nothing is said of failure.
#[verifier::external_body]
pub(crate) fn zstd_decode(frames: &[u8], dict: &[u8]) -> (res: Result<Vec<u8>, std::io::Error>)
    ensures
        res matches Ok(v) ==> zstd_contents(frames@, dict@) == Some(v@),
{
    let mut out = Vec::new();
    zstd::stream::Decoder::with_dictionary(frames, dict)?.read_to_end(&mut out)?;
    Ok(out)
}

/// Compresses with `xz2::write::XzEncoder` over a stream from
/// `Stream::new_stream_encoder`, with a CRC-64 check. Where it succeeds, the
/// stream depends on the arguments alone, a decoder gives the data back, and
/// a stream behind others continues what they hold. (The decoder takes input
/// that starts otherwise for an older format, which nothing may follow.) It may
/// fail for want of memory, so nothing is said of failure.
#[verifier::external_body]
pub(crate) fn xz_encode(data: &[u8], c: LzmaChain) -> (res: Result<Vec<u8>, std::io::Error>)
    ensures
        res matches Ok(v) ==> v@ == xz_stream(data@, c),
        res matches Ok(v) ==> xz_contents(v@) == Some(data@),
        res matches Ok(v) ==> starts_xz(v@),
        res matches Ok(v) ==> forall|before: Seq<u8>, x: Seq<u8>|
            starts_xz(before) && xz_contents(before) == Some(x) ==> #[trigger] xz_contents(
                before + v@,
            ) == Some(#[trigger] (x + data@)),
{
    let mut o = LzmaOptions::new_preset(c.preset)?;
    o.literal_context_bits(c.lc).literal_position_bits(c.lp).position_bits(c.pb);
    o.nice_len(c.nice_len).dict_size(c.dict_size);
    let mut f = Filters::new();
    match c.bcj {
        Off => &mut f, X86 => f.x86(), Arm => f.arm(), ArmThumb => f.arm_thumb(),
        Ia64 => f.ia64(), Sparc => f.sparc(), PowerPc => f.powerpc(),
    };
    f.lzma2(&o);
    let mut enc = XzEncoder::new_stream(Vec::new(), Stream::new_stream_encoder(&f, Check::Crc64)?);
    enc.write_all(data)?;
    enc.finish()
}

/// Compresses as [`xz_encode`] does, but in blocks that `MtStreamBuilder`
/// spreads over threads.
#[verifier::external_body]
pub(crate) fn xz_encode_blocks(data: &[u8], c: LzmaChain, threads: u32, block: u64) -> (res: Result<
    Vec<u8>,
    std::io::Error,
>)
    ensures
        res matches Ok(v) ==> v@ == xz_blocks(data@, c, threads, block),
        res matches Ok(v) ==> xz_contents(v@) == Some(data@),
        res matches Ok(v) ==> starts_xz(v@),
        res matches Ok(v) ==> forall|before: Seq<u8>, x: Seq<u8>|
            starts_xz(before) && xz_contents(before) == Some(x) ==> #[trigger] xz_contents(
                before + v@,
            ) == Some(#[trigger] (x + data@)),
{
    let mut o = LzmaOptions::new_preset(c.preset)?;
    o.literal_context_bits(c.lc).literal_position_bits(c.lp).position_bits(c.pb);
    let mut f = Filters::new();
    match c.bcj {
        Off => &mut f, X86 => f.x86(), Arm => f.arm(), ArmThumb => f.arm_thumb(),
        Ia64 => f.ia64(), Sparc => f.sparc(), PowerPc => f.powerpc(),
    };
    f.lzma2(o.nice_len(c.nice_len).dict_size(c.dict_size));
    let mut b = MtStreamBuilder::new();
    b.threads(threads).block_size(block).filters(f).check(Check::Crc64);
    let mut enc = XzEncoder::new_stream(Vec::new(), b.encoder()?);
    enc.write_all(data)?;
    enc.finish()
}

/// Decompresses all streams with `xz2::read::XzDecoder::new_multi_decoder`.
/// Where it succeeds, the result depends on the bytes alone. It may fail for
/// want of memory, so nothing is said of failure.
#[verifier::external_body]
pub(crate) fn xz_decode(streams: &[u8]) -> (res: Result<Vec<u8>, std::io::Error>)
    ensures
        res matches Ok(v) ==> xz_contents(streams@) == Some(v@),
{
    let mut out = Vec::new();
    xz2::read::XzDecoder::new_multi_decoder(streams).read_to_end(&mut out)?;
    Ok(out)
}

/// Compresses with `ppmd_rust::Ppmd7Encoder` and its end mark. Where it
/// succeeds, the stream depends on the arguments alone and a decoder with the
/// same settings gives the data back. It fails on settings out of range, and
/// may fail for want of memory, so nothing is said of failure.
#[verifier::external_body]
pub(crate) fn ppmd_encode(data: &[u8], order: u32, mem: u32) -> (res: Result<
    Vec<u8>,
    std::io::Error,
>)
    ensures
        res matches Ok(v) ==> v@ == ppmd_stream(data@, order, mem),
        res matches Ok(v) ==> ppmd_contents(v@, order, mem) == Some(data@),
{
    let mut enc = ppmd_rust::Ppmd7Encoder::new(Vec::new(), order, mem).map_err(
        std::io::Error::other,
    )?;
    enc.write_all(data)?;
    enc.finish(true)
}

/// Decompresses with `ppmd_rust::Ppmd7Decoder` up to the end mark; a stream that
/// breaks off is no failure. Where it succeeds, the result depends on the
/// arguments alone. It may fail for want of memory, so nothing is said of
/// failure.
#[verifier::external_body]
pub(crate) fn ppmd_decode(stream: &[u8], order: u32, mem: u32) -> (res: Result<
    Vec<u8>,
    std::io::Error,
>)
    ensures
        res matches Ok(v) ==> ppmd_contents(stream@, order, mem) == Some(v@),
{
    let mut out = Vec::new();
    let mut dec = ppmd_rust::Ppmd7Decoder::new(stream, order, mem).map_err(std::io::Error::other)?;
    dec.read_to_end(&mut out)?;
    Ok(out)
}

} // verus!
