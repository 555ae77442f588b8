//! The bridges to the process streams, and the mapping from a read result to
//! the word an input instruction stores.

use vstd::prelude::*;

use crate::model::input_word;

verus! {

/// Relies on std::io::Read::read on standard input: blocks for at most one
/// byte and hands it back, or hands back nothing at end of input. Aborts the
/// process on a stream error, as the machine defines no recovery for one.
#[verifier::external_body]
pub(crate) fn read_byte_stdin() -> (r: Option<u8>) {
    let mut buf = [0u8; 1];
    let n = std::io::Read::read(&mut std::io::stdin(), &mut buf).expect("read error");
    if n == 0 {
        None
    } else {
        Some(buf[0])
    }
}

/// Relies on std::io::Write::write_all on standard output: writes exactly
/// the one byte given. Aborts the process on a stream error.
#[verifier::external_body]
pub(crate) fn write_byte_stdout(b: u8) {
    std::io::Write::write_all(&mut std::io::stdout(), &[b]).expect("write error");
}

/// Relies on std::io::Write::flush on standard output: pending output
/// reaches the stream before the machine blocks on a read.
#[verifier::external_body]
pub(crate) fn flush_stdout() {
    std::io::Write::flush(&mut std::io::stdout()).expect("flush error");
}

/// The word an input instruction stores for a read result: the byte itself,
/// or `0xFFFFFFFF` at end of input.
pub fn input_value(r: Option<u8>) -> (v: u32)
    ensures
        v == input_word(r),
{
    match r {
        None => 0xffffffffu32,
        Some(b) => b as u32,
    }
}

} // verus!
