//! What the processor pushes on the stack when it takes an exception.
//!
//! From the stack pointer upwards there are eight words, r0, r1, r2, r3, r12, lr,
//! pc and xpsr. When the floating-point unit was in use, eighteen more follow
//! them: s0 to s15, fpscr and a reserved word.

use vstd::prelude::*;

verus! {

/// Words of the basic frame.
pub const BASIC_WORDS: usize = 8;

/// Words of the floating-point context.
pub const FP_WORDS: usize = 18;

/// Bytes of the basic frame.
pub const BASIC_BYTES: usize = 32;

/// Bytes of the frame with the floating-point context.
pub const EXTENDED_BYTES: usize = 104;

/// A decoded frame.
#[derive(Clone, Copy, Debug, PartialEq, Eq)]
pub struct Frame<'a> {
    /// r0, r1, r2, r3, r12, lr, pc, xpsr.
    pub basic: &'a [u32; BASIC_WORDS],
    /// s0 to s15, fpscr and a reserved word, if they were pushed.
    pub fp: Option<&'a [u32; FP_WORDS]>,
}

/// `<&[T; N]>::try_from` on a slice: it succeeds exactly when the slice holds `N`
/// elements, and gives the same elements.
#[verifier::external_body]
fn as_array<const N: usize>(words: &[u32]) -> (r: Option<&[u32; N]>)
    ensures
        r is Some <==> words@.len() == N,
        r matches Some(a) ==> a@ == words@,
{
    words.try_into().ok()
}

/// Decode a frame from the words on the stack, the one at the stack pointer
/// first.
///
/// `None` when there are fewer words than the frame has.
pub fn try_decode<'a>(words: &'a [u32], extended: bool) -> (r: Option<Frame<'a>>)
    ensures
        r is Some <==> words@.len() >= (if extended {
            26int
        } else {
            8
        }),
        r matches Some(frame) ==> {
            &&& frame.basic@ == words@.subrange(0, 8)
            &&& match frame.fp {
                Some(fp) => extended && fp@ == words@.subrange(8, 26),
                None => !extended,
            }
        },
{
    if words.len() < BASIC_WORDS {
        return None;
    }
    let basic: &[u32; BASIC_WORDS] = match as_array(&words[0..BASIC_WORDS]) {
        Some(basic) => basic,
        None => {
            return None;
        },
    };
    if !extended {
        return Some(Frame { basic, fp: None });
    }
    if words.len() < BASIC_WORDS + FP_WORDS {
        return None;
    }
    match as_array(&words[BASIC_WORDS..BASIC_WORDS + FP_WORDS]) {
        Some(fp) => Some(Frame { basic, fp: Some(fp) }),
        None => None,
    }
}

} // verus!
