//! zstd decompression of dictionary blocks, done by the `ruzstd` crate.

use vstd::prelude::*;

verus! {

/// What `ruzstd` makes of the raw zstd dictionary `dict`: whether
/// `Dictionary::decode_dict` accepts it.
pub uninterp spec fn zstd_dict_accepted(dict: Seq<u8>) -> bool;

/// The debug text of the error that `Dictionary::decode_dict` gives for the
/// raw zstd dictionary `dict`.
pub uninterp spec fn zstd_dict_error(dict: Seq<u8>) -> Seq<char>;

/// Where a fresh `ruzstd` `FrameDecoder` fails on the zstd frame `frame`:
/// the step (0: reset on the frame, 1: decoding its blocks, 2: reading the
/// output) and the text of the error, debug text for the first two steps
/// and display text for the third.
pub uninterp spec fn zstd_frame_failure(frame: Seq<u8>) -> (u8, Seq<char>);

/// Where a `ruzstd` `FrameDecoder` given the dictionary `dict` fails on the
/// zstd frame `frame`: the step and the error text as for
/// `zstd_frame_failure`, a dictionary that does not decode counting as
/// failing the first step.
pub uninterp spec fn zstd_frame_failure_with_dict(dict: Seq<u8>, frame: Seq<u8>) -> (u8, Seq<char>);

/// Decoding the zstd frame `frame` with a fresh `ruzstd` `FrameDecoder`
/// returns, with the frame's content or an error, rather than panicking.
/// Which frames these are, the crate's source does not settle: its block and
/// sequence decoding keep panicking paths (for instance the `panic!` calls
/// of `decoding/frame_decoder.rs` and the `expect`s below it) that nothing
/// shows a malformed frame cannot reach.
pub uninterp spec fn zstd_frame_returns(frame: Seq<u8>) -> bool;

/// Decoding the zstd frame `frame` with a `ruzstd` `FrameDecoder` given the
/// dictionary `dict` returns rather than panicking, as for
/// `zstd_frame_returns`.
pub uninterp spec fn zstd_frame_returns_with_dict(dict: Seq<u8>, frame: Seq<u8>) -> bool;

/// Decoding the zstd frame `frame` with the dictionary `dict` returns rather
/// than panicking, an empty `dict` standing for no dictionary.
pub open spec fn frame_returns(dict: Seq<u8>, frame: Seq<u8>) -> bool {
    if dict.len() == 0 {
        zstd_frame_returns(frame)
    } else {
        zstd_frame_returns_with_dict(dict, frame)
    }
}

/// What a fresh `ruzstd` `FrameDecoder` decodes from the zstd frame `frame`:
/// the frame's content, or `None` when the decoder rejects the frame.
pub uninterp spec fn zstd_frame_content(frame: Seq<u8>) -> Option<Seq<u8>>;

/// What a `ruzstd` `FrameDecoder` that holds the dictionary `dict` decodes
/// from the zstd frame `frame`: the frame's content, or `None` when the
/// decoder rejects the dictionary or the frame.
pub uninterp spec fn zstd_frame_content_with_dict(dict: Seq<u8>, frame: Seq<u8>) -> Option<Seq<u8>>;

/// The content of the zstd frame `frame` decoded with the dictionary `dict`,
/// where an empty `dict` stands for no dictionary.
pub open spec fn frame_content(dict: Seq<u8>, frame: Seq<u8>) -> Option<Seq<u8>> {
    if dict.len() == 0 {
        zstd_frame_content(frame)
    } else {
        zstd_frame_content_with_dict(dict, frame)
    }
}

/// Where decoding the zstd frame `frame` with the dictionary `dict` fails,
/// an empty `dict` standing for no dictionary.
pub open spec fn frame_failure(dict: Seq<u8>, frame: Seq<u8>) -> (u8, Seq<char>) {
    if dict.len() == 0 {
        zstd_frame_failure(frame)
    } else {
        zstd_frame_failure_with_dict(dict, frame)
    }
}

/// `ruzstd::decoding::Dictionary::decode_dict`: the contract says that the
/// dictionary is accepted or not as a function of its bytes, and that a
/// refusal comes with the debug text of the crate's error, also a function
/// of the bytes.
#[verifier::external_body]
pub(crate) fn zstd_dict_check(dict: &[u8]) -> (res: Result<(), String>)
    ensures
        res is Ok == zstd_dict_accepted(dict@),
        res matches Err(s) ==> s@ == zstd_dict_error(dict@),
{
    match ruzstd::decoding::Dictionary::decode_dict(dict) {
        Ok(_) => Ok(()),
        Err(e) => Err(format!("{:?}", e)),
    }
}

/// Decodes one zstd frame with a fresh `ruzstd` `FrameDecoder`: it is reset
/// on `frame`, decodes all its blocks, and its output is read to the end;
/// the step that fails comes with its error's text. The contract says only
/// that the outcome is the one named by `zstd_frame_content` and
/// `zstd_frame_failure` for these bytes; what the content is, the zstd format
/// decides and nothing here states. Only frames on which the decoder returns
/// are given to it.
#[verifier::external_body]
fn zstd_decode_frame(frame: &[u8]) -> (res: Result<Vec<u8>, (u8, String)>)
    requires
        zstd_frame_returns(frame@),
    ensures
        match res {
            Ok(v) => zstd_frame_returns(frame@) && zstd_frame_content(frame@) == Some(v@),
            Err(f) => zstd_frame_returns(frame@) && zstd_frame_content(frame@) is None && (f.0, f.1@)
                == zstd_frame_failure(frame@),
        },
{
    let mut dec = ruzstd::decoding::FrameDecoder::new();
    let mut src = std::io::Cursor::new(frame);
    dec.reset(&mut src).map_err(|e| (0u8, format!("{:?}", e)))?;
    dec.decode_blocks(&mut src, ruzstd::decoding::BlockDecodingStrategy::All).map_err(|e| (1u8, format!("{:?}", e)))?;
    let mut out = Vec::new();
    std::io::Read::read_to_end(&mut dec, &mut out).map_err(|e| (2u8, format!("{}", e)))?;
    Ok(out)
}

/// Decodes one zstd frame with a `ruzstd` `FrameDecoder` to which the
/// dictionary decoded from `dict` was added: it is reset on `frame`, decodes
/// all its blocks, and its output is read to the end; the step that fails
/// comes with its error's text. The contract says only that the outcome is
/// the one named by `zstd_frame_content_with_dict` and
/// `zstd_frame_failure_with_dict` for these bytes. Only frames on which the
/// decoder returns are given to it.
#[verifier::external_body]
fn zstd_decode_frame_with_dict(dict: &[u8], frame: &[u8]) -> (res: Result<Vec<u8>, (u8, String)>)
    requires
        zstd_frame_returns_with_dict(dict@, frame@),
    ensures
        match res {
            Ok(v) => zstd_frame_returns_with_dict(dict@, frame@) && zstd_frame_content_with_dict(
                dict@,
                frame@,
            ) == Some(v@),
            Err(f) => zstd_frame_returns_with_dict(dict@, frame@) && zstd_frame_content_with_dict(
                dict@,
                frame@,
            ) is None && (f.0, f.1@) == zstd_frame_failure_with_dict(dict@, frame@),
        },
{
    let mut dec = ruzstd::decoding::FrameDecoder::new();
    let d = ruzstd::decoding::Dictionary::decode_dict(dict).map_err(|e| (0u8, format!("{:?}", e)))?;
    dec.add_dict(d).map_err(|e| (0u8, format!("{:?}", e)))?;
    let mut src = std::io::Cursor::new(frame);
    dec.reset(&mut src).map_err(|e| (0u8, format!("{:?}", e)))?;
    dec.decode_blocks(&mut src, ruzstd::decoding::BlockDecodingStrategy::All).map_err(|e| (1u8, format!("{:?}", e)))?;
    let mut out = Vec::new();
    std::io::Read::read_to_end(&mut dec, &mut out).map_err(|e| (2u8, format!("{}", e)))?;
    Ok(out)
}

/// Decodes the zstd frame `frame` with the dictionary `dict`, an empty `dict`
/// standing for no dictionary; a failure says at which step (0: setting up
/// the decoder for the frame, 1: decoding its blocks, 2: reading the output)
/// and with which error text. The frame must be one on which the decoder
/// returns.
pub fn decode_frame(dict: &[u8], frame: &[u8]) -> (res: Result<Vec<u8>, (u8, String)>)
    requires
        frame_returns(dict@, frame@),
    ensures
        match res {
            Ok(v) => frame_content(dict@, frame@) == Some(v@),
            Err(f) => frame_content(dict@, frame@) is None && (f.0, f.1@) == frame_failure(dict@, frame@),
        },
{
    if dict.len() == 0 {
        zstd_decode_frame(frame)
    } else {
        zstd_decode_frame_with_dict(dict, frame)
    }
}

} // verus!
