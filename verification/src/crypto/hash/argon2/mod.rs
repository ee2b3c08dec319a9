//! Argon2id password hashing.
//!
//! Memory is a table of 1 KB blocks in `p` lanes of four segments each. The
//! first two blocks of a lane come from the password and the salt; every other
//! block is compressed from the one before it and a reference block. In the
//! first two segments of the first pass the choice of the reference block
//! depends on the position alone, and everywhere else on the data.

pub mod block;
pub mod memory;
pub mod phc;
pub mod properties;

use vstd::prelude::*;
use vstd::string::StringSliceAdditionalSpecFns;
use vstd::utf8::encode_utf8;

use self::memory::{argon2id_digest, argon2id_raw, has_layout};
use self::phc::{decode_phc, encode_phc, phc_fields, phc_round_trip, phc_text, PhcFields};
use crate::bytes::constant_time_eq;
use crate::helper_functions::{ascii_text, lemma_ascii_text};

verus! {

/// The version that the hash is bound to.
pub const ARGON2_VERSION: u32 = 19;

/// The number of the variant.
pub const ARGON2_TYPE_ID: u32 = 2;

/// The size of a memory block in bytes.
pub const BLOCK_SIZE: usize = 1024;

/// The size of a memory block in words.
pub const BLOCK_WORDS: usize = 128;

/// 19 MB.
pub const DEFAULT_M_COST: u32 = 19456;

pub const DEFAULT_T_COST: u32 = 2;

pub const DEFAULT_P_COST: u32 = 1;

/// The length of a digest in bytes.
pub const HASH_LEN: usize = 32;

/// What can go wrong.
#[derive(Debug, PartialEq, Eq, Structural)]
pub enum Argon2Error {
    /// The memory is below 8 blocks for each lane.
    MemoryCostTooLow,
    TimeCostZero,
    ParallelismZero,
    /// The salt is shorter than 8 bytes.
    SaltTooShort,
    PasswordEmpty,
    /// The text is not a hash record.
    InvalidPhcString,
    /// The password is not the one that was hashed.
    PasswordMismatch,
}

/// The first thing that is wrong with the parameters.
pub open spec fn first_error(
    password: Seq<u8>,
    salt: Seq<u8>,
    m_cost: u32,
    t_cost: u32,
    p_cost: u32,
) -> Option<Argon2Error> {
    if password.len() == 0 {
        Some(Argon2Error::PasswordEmpty)
    } else if salt.len() < 8 {
        Some(Argon2Error::SaltTooShort)
    } else if t_cost == 0 {
        Some(Argon2Error::TimeCostZero)
    } else if p_cost == 0 {
        Some(Argon2Error::ParallelismZero)
    } else if m_cost < 8 * p_cost {
        Some(Argon2Error::MemoryCostTooLow)
    } else {
        None
    }
}

/// Checks the parameters.
pub fn validate_params(password: &[u8], salt: &[u8], m_cost: u32, t_cost: u32, p_cost: u32) -> (r:
    Result<(), Argon2Error>)
    ensures
        match r {
            Ok(_) => first_error(password@, salt@, m_cost, t_cost, p_cost) is None,
            Err(e) => first_error(password@, salt@, m_cost, t_cost, p_cost) == Some(e),
        },
{
    if password.len() == 0 {
        return Err(Argon2Error::PasswordEmpty);
    }
    if salt.len() < 8 {
        return Err(Argon2Error::SaltTooShort);
    }
    if t_cost == 0 {
        return Err(Argon2Error::TimeCostZero);
    }
    if p_cost == 0 {
        return Err(Argon2Error::ParallelismZero);
    }
    if (m_cost as u64) < 8 * p_cost as u64 {
        return Err(Argon2Error::MemoryCostTooLow);
    }
    Ok(())
}

/// The record of a hashed password.
pub open spec fn record_of(
    password: Seq<u8>,
    salt: Seq<u8>,
    m_cost: u32,
    t_cost: u32,
    p_cost: u32,
) -> PhcFields {
    PhcFields {
        salt,
        hash: argon2id_digest(password, salt, m_cost, t_cost, p_cost),
        m_cost,
        t_cost,
        p_cost,
    }
}

/// Hashes a password with the default costs.
pub fn hash_password(password: &[u8], salt: &[u8]) -> (r: Result<String, Argon2Error>)
    ensures
        match r {
            Ok(phc) => password@.len() > 0 && salt@.len() >= 8 && phc@ == ascii_text(
                phc_text(
                    record_of(password@, salt@, DEFAULT_M_COST, DEFAULT_T_COST, DEFAULT_P_COST),
                ),
            ),
            Err(e) => if password@.len() == 0 {
                e == Argon2Error::PasswordEmpty
            } else {
                salt@.len() < 8 && e == Argon2Error::SaltTooShort
            },
        },
{
    hash_password_with_params(password, salt, DEFAULT_M_COST, DEFAULT_T_COST, DEFAULT_P_COST)
}

/// Hashes a password, and gives the record that [`verify_password`] takes.
pub fn hash_password_with_params(
    password: &[u8],
    salt: &[u8],
    m_cost: u32,
    t_cost: u32,
    p_cost: u32,
) -> (r: Result<String, Argon2Error>)
    ensures
        match r {
            Ok(phc) => first_error(password@, salt@, m_cost, t_cost, p_cost) is None && phc@
                == ascii_text(phc_text(record_of(password@, salt@, m_cost, t_cost, p_cost))),
            Err(e) => first_error(password@, salt@, m_cost, t_cost, p_cost) == Some(e),
        },
{
    match validate_params(password, salt, m_cost, t_cost, p_cost) {
        Ok(_) => {},
        Err(e) => {
            return Err(e);
        },
    }
    let hash = argon2id_raw(password, salt, m_cost, t_cost, p_cost);
    Ok(encode_phc(salt, &hash, m_cost, t_cost, p_cost))
}

/// What verifying a password against a record tells.
pub open spec fn verification(password: Seq<u8>, phc: Seq<u8>) -> Result<(), Argon2Error> {
    match phc_fields(phc) {
        None => Err(Argon2Error::InvalidPhcString),
        Some(f) => if argon2id_digest(password, f.salt, f.m_cost, f.t_cost, f.p_cost) == f.hash {
            Ok(())
        } else {
            Err(Argon2Error::PasswordMismatch)
        },
    }
}

/// Verifies a password against a record.
pub fn verify_password(password: &[u8], phc: &str) -> (r: Result<(), Argon2Error>)
    requires
        phc_fields(phc.spec_bytes()) matches Some(f) ==> has_layout(f.m_cost, f.p_cost),
    ensures
        r == verification(password@, phc.spec_bytes()),
{
    match decode_phc(phc) {
        Err(e) => Err(e),
        Ok((salt, stored_hash, m_cost, t_cost, p_cost)) => {
            let computed = argon2id_raw(password, salt.as_slice(), m_cost, t_cost, p_cost);
            if !constant_time_eq(&computed, stored_hash.as_slice()) {
                return Err(Argon2Error::PasswordMismatch);
            }
            Ok(())
        },
    }
}

/// A hashed password verifies against its record, and another one does only
/// if it has the same digest.
pub proof fn hashed_password_verifies(
    password: Seq<u8>,
    candidate: Seq<u8>,
    salt: Seq<u8>,
    m_cost: u32,
    t_cost: u32,
    p_cost: u32,
)
    requires
        first_error(password, salt, m_cost, t_cost, p_cost) is None,
    ensures
        ({
            let f = record_of(password, salt, m_cost, t_cost, p_cost);
            let phc = encode_utf8(ascii_text(phc_text(f)));
            &&& phc_fields(phc) == Some(f)
            &&& has_layout(f.m_cost, f.p_cost)
            &&& verification(password, phc) == Ok::<(), Argon2Error>(())
            &&& verification(candidate, phc) == if argon2id_digest(
                candidate,
                salt,
                m_cost,
                t_cost,
                p_cost,
            ) == f.hash {
                Ok::<(), Argon2Error>(())
            } else {
                Err(Argon2Error::PasswordMismatch)
            }
        }),
{
    let f = record_of(password, salt, m_cost, t_cost, p_cost);
    phc_round_trip(f);
    lemma_ascii_text(phc_text(f));
}

/// Each error has its reason: no password, a salt below 8 bytes, no pass, no
/// lane, or less than 8 blocks for each lane. The first of them counts.
pub proof fn errors_have_reasons(
    password: Seq<u8>,
    salt: Seq<u8>,
    m_cost: u32,
    t_cost: u32,
    p_cost: u32,
)
    ensures
        ({
            let e = first_error(password, salt, m_cost, t_cost, p_cost);
            let (a, b, c, d) = (password.len() > 0, salt.len() >= 8, t_cost >= 1, p_cost >= 1);
            &&& e is None <==> a && b && c && d && m_cost >= 8 * p_cost
            &&& e == Some(Argon2Error::PasswordEmpty) <==> !a
            &&& e == Some(Argon2Error::SaltTooShort) <==> a && !b
            &&& e == Some(Argon2Error::TimeCostZero) <==> a && b && !c
            &&& e == Some(Argon2Error::ParallelismZero) <==> a && b && c && !d
            &&& e == Some(Argon2Error::MemoryCostTooLow) <==> a && b && c && d && m_cost < 8
                * p_cost
        }),
{
}

/// A password verifies against a record if its digest with the record's salt and
/// costs is the record's digest. Text that is no record is refused.
pub proof fn verification_recomputes_the_digest(password: Seq<u8>, phc: Seq<u8>)
    ensures
        phc_fields(phc) is None <==> verification(password, phc) == Err::<(), Argon2Error>(
            Argon2Error::InvalidPhcString,
        ),
        verification(password, phc) == Ok::<(), Argon2Error>(()) <==> (phc_fields(phc) matches Some(
            f,
        ) && f.hash == record_of(password, f.salt, f.m_cost, f.t_cost, f.p_cost).hash),
        phc_fields(phc) matches Some(f) ==> record_of(
            password,
            f.salt,
            f.m_cost,
            f.t_cost,
            f.p_cost,
        ).salt == f.salt,
{
}

/// The default costs are 19456 blocks, two passes and one lane.
pub proof fn default_costs_are_allowed(password: Seq<u8>, salt: Seq<u8>)
    requires
        password.len() > 0,
        salt.len() >= 8,
    ensures
        first_error(password, salt, DEFAULT_M_COST, DEFAULT_T_COST, DEFAULT_P_COST) is None,
        DEFAULT_M_COST == 19 * 1024,
        DEFAULT_T_COST == 2,
        DEFAULT_P_COST == 1,
{
}

} // verus!
