//! The numbers that a peer is told when a token is refused.

use vstd::prelude::*;
use crate::auth::types::{DenyReason, DenyReasonView};

verus! {

pub const TOKEN_MISSING: u64 = 0x0100;

pub const TOKEN_INVALID: u64 = 0x0101;

pub const TOKEN_EXPIRED: u64 = 0x0102;

pub const TOKEN_REPLAYED: u64 = 0x0103;

pub const SCOPE_MISMATCH: u64 = 0x0104;

pub const ISSUER_UNKNOWN: u64 = 0x0105;

pub const TOKEN_MALFORMED: u64 = 0x0106;

/// The number of a reason.
pub open spec fn code_of(reason: DenyReasonView) -> u64 {
    match reason {
        DenyReasonView::TokenMissing => TOKEN_MISSING,
        DenyReasonView::TokenInvalid => TOKEN_INVALID,
        DenyReasonView::TokenExpired => TOKEN_EXPIRED,
        DenyReasonView::TokenReplayed => TOKEN_REPLAYED,
        DenyReasonView::ScopeMismatch => SCOPE_MISMATCH,
        DenyReasonView::IssuerUnknown => ISSUER_UNKNOWN,
        DenyReasonView::TokenMalformed => TOKEN_MALFORMED,
        DenyReasonView::Other { message } => TOKEN_INVALID,
    }
}

/// The number of a reason.
pub fn error_code(reason: &DenyReason) -> (r: u64)
    ensures
        r == code_of(reason@),
{
    match reason {
        DenyReason::TokenMissing => TOKEN_MISSING,
        DenyReason::TokenInvalid => TOKEN_INVALID,
        DenyReason::TokenExpired => TOKEN_EXPIRED,
        DenyReason::TokenReplayed => TOKEN_REPLAYED,
        DenyReason::ScopeMismatch => SCOPE_MISMATCH,
        DenyReason::IssuerUnknown => ISSUER_UNKNOWN,
        DenyReason::TokenMalformed => TOKEN_MALFORMED,
        DenyReason::Other { .. } => TOKEN_INVALID,
    }
}

/// Reasons that have a name of their own have a number of their own.
pub proof fn law_codes_are_distinct(a: DenyReasonView, b: DenyReasonView)
    requires
        !(a is Other),
        !(b is Other),
        code_of(a) == code_of(b),
    ensures
        a == b,
{
}

/// The codes of denials follow on each other. A denial for another reason has the code of an
/// invalid token.
pub proof fn law_codes_follow_on_each_other(message: Seq<char>)
    ensures
        code_of(DenyReasonView::TokenMissing) == 0x100,
        code_of(DenyReasonView::TokenInvalid) == code_of(DenyReasonView::TokenMissing) + 1,
        code_of(DenyReasonView::TokenExpired) == code_of(DenyReasonView::TokenInvalid) + 1,
        code_of(DenyReasonView::TokenReplayed) == code_of(DenyReasonView::TokenExpired) + 1,
        code_of(DenyReasonView::ScopeMismatch) == code_of(DenyReasonView::TokenReplayed) + 1,
        code_of(DenyReasonView::IssuerUnknown) == code_of(DenyReasonView::ScopeMismatch) + 1,
        code_of(DenyReasonView::TokenMalformed) == code_of(DenyReasonView::IssuerUnknown) + 1,
        code_of(DenyReasonView::Other { message }) == code_of(DenyReasonView::TokenInvalid),
{
}

} // verus!
