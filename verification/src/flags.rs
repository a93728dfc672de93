//! The bits of an account's `userAccountControl` value.

use vstd::prelude::*;

verus! {

pub const UAC_ACCOUNT_DISABLE: u32 = 2;

pub const UAC_HOMEDIR_REQUIRED: u32 = 8;

pub const UAC_LOCKOUT: u32 = 16;

pub const UAC_PASSWD_NOTREQD: u32 = 32;

pub const UAC_PASSWD_CANT_CHANGE: u32 = 64;

pub const UAC_ENCRYPTED_TEXT_PASSWORD_ALLOWED: u32 = 128;

pub const UAC_NORMAL_ACCOUNT: u32 = 512;

pub const UAC_INTERDOMAIN_TRUST_ACCOUNT: u32 = 2048;

pub const UAC_WORKSTATION_TRUST_ACCOUNT: u32 = 4096;

pub const UAC_SERVER_TRUST_ACCOUNT: u32 = 8192;

pub const UAC_DONT_EXPIRE_PASSWD: u32 = 65536;

pub const UAC_MNS_LOGON_ACCOUNT: u32 = 131072;

pub const UAC_SMARTCARD_REQUIRED: u32 = 262144;

pub const UAC_TRUSTED_FOR_DELEGATION: u32 = 524288;

pub const UAC_NOT_DELEGATED: u32 = 1048576;

pub const UAC_USE_DES_KEY_ONLY: u32 = 2097152;

pub const UAC_DONT_REQUIRE_PREAUTH: u32 = 4194304;

pub const UAC_PASSWORD_EXPIRED: u32 = 8388608;

pub const UAC_TRUSTED_TO_AUTHENTICATE_FOR_DELEGATION: u32 = 16777216;

pub const UAC_NO_AUTH_DATA_REQUIRED: u32 = 33554432;

pub const UAC_PARTIAL_SECRETS_ACCOUNT: u32 = 67108864;

/// The account is disabled: the bit `UAC_ACCOUNT_DISABLE` is set.
pub open spec fn disabled(flags: u32) -> bool {
    flags & 2 != 0
}

/// Whether the account is disabled.
pub fn is_disabled(flags: u32) -> (r: bool)
    ensures
        r == disabled(flags),
{
    flags & UAC_ACCOUNT_DISABLE != 0
}

} // verus!
