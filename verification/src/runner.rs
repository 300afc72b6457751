//! The fixture runner surface the core relies on: the configuration a
//! runner instance is constructed from, the derivation of its log file name
//! and RPC endpoint, and the readiness test over log content.
//!
//! Spawning the node process, waiting in real time and tearing the process
//! down are outside work; this module fixes what those steps compute, so
//! the unverified shell around the library only moves bytes.

use crate::bytes::{digits_of, has_sub};
use vstd::prelude::*;

verus! {

/// The settings one fixture runner instance is constructed from. The
/// instance name keys the log file, so it must be a usable file name
/// fragment: nonempty, no path separator and no NUL byte.
pub struct RunnerConfig {
    pub executable: Vec<u8>,
    pub instance_name: Vec<u8>,
    pub n_accounts: u16,
    pub with_blocks: bool,
}

/// A usable instance name: nonempty, free of `/` and NUL.
pub open spec fn name_ok(name: Seq<u8>) -> bool {
    name.len() > 0 && forall|i: int| 0 <= i < name.len() ==> name[i] != 47 && name[i] != 0
}

impl RunnerConfig {
    /// The configuration is well formed: its name can stand in a file name.
    pub open spec fn wf(self) -> bool {
        name_ok(self.instance_name@)
    }

    pub fn new(executable: Vec<u8>, instance_name: Vec<u8>, n_accounts: u16, with_blocks: bool) -> (
        r: RunnerConfig)
        requires
            name_ok(instance_name@),
        ensures
            r.wf(),
            r.executable@ == executable@,
            r.instance_name@ == instance_name@,
            r.n_accounts == n_accounts,
            r.with_blocks == with_blocks,
    {
        RunnerConfig { executable, instance_name, n_accounts, with_blocks }
    }

    /// The log file name this instance writes to: the instance name with a
    /// `.log` suffix, so concurrently running fixtures never share a file.
    pub fn log_file_name(&self) -> (r: Vec<u8>)
        ensures
            r@ == self.instance_name@ + seq![46u8, 108, 111, 103],
    {
        let mut r: Vec<u8> = Vec::new();
        let mut i: usize = 0;
        let n = self.instance_name.len();
        while i < n
            invariant
                0 <= i <= n,
                n == self.instance_name@.len(),
                r@ == self.instance_name@.take(i as int),
            decreases n - i,
        {
            r.push(self.instance_name[i]);
            proof {
                assert(r@ =~= self.instance_name@.take(i + 1));
            }
            i = i + 1;
        }
        proof {
            assert(r@ =~= self.instance_name@);
        }
        r.push(46);
        r.push(108);
        r.push(111);
        r.push(103);
        proof {
            assert(r@ =~= self.instance_name@ + seq![46u8, 108, 111, 103]);
        }
        r
    }

    /// The RPC endpoint URL for the port the node was bound to:
    /// `http://0.0.0.0:` followed by the port in decimal.
    pub fn endpoint(&self, port: u16) -> (r: Vec<u8>)
        ensures
            r@ == seq![104u8, 116, 116, 112, 58, 47, 47, 48, 46, 48, 46, 48, 46, 48, 58]
                + digits_of(port as nat),
    {
        let mut r: Vec<u8> = Vec::new();
        r.push(104);
        r.push(116);
        r.push(116);
        r.push(112);
        r.push(58);
        r.push(47);
        r.push(47);
        r.push(48);
        r.push(46);
        r.push(48);
        r.push(46);
        r.push(48);
        r.push(46);
        r.push(48);
        r.push(58);
        let ghost prefix = r@;
        proof {
            assert(prefix =~= seq![104u8, 116, 116, 112, 58, 47, 47, 48, 46, 48, 46, 48, 46, 48, 58]);
        }
        let digits = crate::bytes::format_u64(port as u64);
        let mut i: usize = 0;
        let n = digits.len();
        while i < n
            invariant
                0 <= i <= n,
                n == digits@.len(),
                digits@ == digits_of(port as nat),
                r@ == prefix + digits@.take(i as int),
            decreases n - i,
        {
            r.push(digits[i]);
            proof {
                assert(r@ =~= prefix + digits@.take(i + 1));
            }
            i = i + 1;
        }
        proof {
            assert(digits@.take(n as int) =~= digits@);
        }
        r
    }
}

/// Whether the log content carries the given readiness marker anywhere;
/// construction blocks until the node has written it.
pub fn log_contains(content: &[u8], marker: &[u8]) -> (r: bool)
    ensures
        r == has_sub(content@, marker@),
{
    crate::bytes::contains_subseq(content, marker)
}

} // verus!
