//! Settings of the fleet controller that call for a computation: the time
//! to live of a connection epoch with its jitter, and the memory of the
//! last configuration bundle seen.

use vstd::prelude::*;
use vstd::string::StringExecFns;
use crate::election::random_below;
use crate::error::Error;
use crate::error::ErrorView;
use crate::hash::sha256;
use crate::hash::sha256_of;
use crate::text::decimal;
use crate::text::format_decimal;

verus! {

/// The time to live of a connection epoch: a base period and the range by
/// which a single epoch may be longer or shorter, both in milliseconds.
#[derive(Debug, Clone, Copy, PartialEq, Eq, Structural)]
pub struct TtlSettings {
    pub enable: bool,
    pub period_msec: u64,
    pub range_msec: u64,
}

/// The time to live that a draw between zero and twice the range stands
/// for: the period less the range plus the draw, kept within the numbers a
/// time to live can be.
pub open spec fn ttl_of(period: u64, range: u64, draw: u64) -> u64 {
    let t = period - range + draw;
    if t < 0 {
        0
    } else if t > u64::MAX {
        u64::MAX
    } else {
        t as u64
    }
}

impl TtlSettings {
    /// Tells whether epochs are timed at all.
    pub fn enable(&self) -> (b: bool)
        ensures
            b == self.enable,
    {
        self.enable
    }

    /// Returns the time to live that a given draw stands for.
    pub fn ttl_with(&self, draw: u64) -> (ttl: u64)
        ensures
            ttl == ttl_of(self.period_msec, self.range_msec, draw),
    {
        let sum = self.period_msec as u128 + draw as u128;
        let range = self.range_msec as u128;
        if sum < range {
            0
        } else if sum - range > u64::MAX as u128 {
            u64::MAX
        } else {
            (sum - range) as u64
        }
    }

    /// Returns the time to live of a new epoch: the period, made longer or
    /// shorter by a random amount within the range.
    pub fn ttl(&self) -> (ttl: u64)
        ensures
            exists|draw: u64| draw <= 2 * self.range_msec && ttl == ttl_of(
                self.period_msec,
                self.range_msec,
                draw,
            ),
            self.range_msec <= self.period_msec && self.period_msec + self.range_msec <= u64::MAX
                ==> self.period_msec - self.range_msec <= ttl <= self.period_msec
                + self.range_msec,
    {
        let bound = 2 * (self.range_msec as u128) + 1;
        let drawn = random_below(bound);
        let draw: u64 = if drawn > u64::MAX as u128 {
            u64::MAX
        } else {
            drawn as u64
        };
        let ttl = self.ttl_with(draw);
        proof {
            assert(draw <= 2 * self.range_msec);
        }
        ttl
    }
}

/// The memory of the last configuration bundle seen: its digest.
#[derive(Debug)]
pub struct BundleMemo {
    hash: Option<Vec<u8>>,
}

/// The least number of bytes a configuration bundle has.
pub const MIN_BUNDLE_LEN: usize = 24;

/// The message that tells of a bundle that is too short.
pub open spec fn short_bundle_message(len: nat) -> Seq<char> {
    "Update: invalid data length: "@ + decimal(len)
}

impl View for BundleMemo {
    type V = Option<Seq<u8>>;

    /// The digest of the last bundle seen, if any.
    closed spec fn view(&self) -> Option<Seq<u8>> {
        match self.hash {
            Some(h) => Some(h@),
            None => None,
        }
    }
}

impl BundleMemo {
    /// A memory that has seen no bundle.
    pub fn new() -> (memo: BundleMemo)
        ensures
            memo@ is None,
    {
        BundleMemo { hash: None }
    }

    /// Returns the digest of the last bundle seen, if any.
    pub fn digest(&self) -> (d: Option<&Vec<u8>>)
        ensures
            match d {
                Some(h) => self@ == Some(h@),
                None => self@ is None,
            },
    {
        self.hash.as_ref()
    }

    /// Takes note of the digest of a bundle and tells whether it differs
    /// from the digest of the last bundle seen.
    pub fn remember(&mut self, digest: Vec<u8>) -> (changed: bool)
        ensures
            final(self)@ == Some(digest@),
            changed == (old(self)@ != Some(digest@)),
    {
        let same = match &self.hash {
            Some(previous) => same_bytes(previous, &digest),
            None => false,
        };
        if !same {
            self.hash = Some(digest);
        }
        !same
    }

    /// Takes note of a bundle that was fetched and tells whether it differs
    /// from the last one seen, so that it has to be decrypted and read. A
    /// bundle of fewer than 24 bytes is an error and is not remembered.
    pub fn observe(&mut self, data: &[u8]) -> (changed: Result<bool, Error>)
        ensures
            data@.len() < MIN_BUNDLE_LEN ==> final(self)@ == old(self)@ && (changed matches Err(e)
                && e@ == ErrorView::Config(short_bundle_message(data@.len()))),
            data@.len() >= MIN_BUNDLE_LEN ==> final(self)@ == Some(sha256_of(data@)) && changed
                == Ok::<bool, Error>(old(self)@ != Some(sha256_of(data@))),
    {
        if data.len() < MIN_BUNDLE_LEN {
            let mut message = String::from_str("Update: invalid data length: ");
            let digits = format_decimal(data.len() as u64);
            message.append(digits.as_str());
            return Err(Error::Config(message));
        }
        let digest = sha256(data);
        Ok(self.remember(digest))
    }
}

/// Tells whether two byte strings are the same.
pub fn same_bytes(a: &Vec<u8>, b: &Vec<u8>) -> (same: bool)
    ensures
        same == (a@ == b@),
{
    if a.len() != b.len() {
        return false;
    }
    let mut i: usize = 0;
    while i < a.len()
        invariant
            i <= a.len(),
            a@.len() == b@.len(),
            forall|j: int| 0 <= j < i ==> a@[j] == b@[j],
        decreases a.len() - i,
    {
        if a[i] != b[i] {
            return false;
        }
        i += 1;
    }
    assert(a@ =~= b@);
    true
}

} // verus!
