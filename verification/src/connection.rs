//! Connection lifecycle: the Disconnected/Connected state machine and
//! the exponential reconnect backoff policy.

use vstd::prelude::*;
use crate::error::SyncError;
use crate::protocol::{MessageModel, SyncMessage};

verus! {

/// Longest backoff delay, in seconds.
pub const MAX_BACKOFF_SECS: u64 = 60;

/// 2^n, for the backoff schedule.
pub open spec fn pow2(n: nat) -> nat
    decreases n,
{
    if n == 0 {
        1
    } else {
        2 * pow2((n - 1) as nat)
    }
}

/// Backoff delay in seconds before reconnect attempt number `attempts`:
/// `min(2^attempts, 60)`.
pub fn backoff_delay_secs(attempts: u32) -> (delay: u64)
    ensures
        delay as nat == if pow2(attempts as nat) < MAX_BACKOFF_SECS {
            pow2(attempts as nat)
        } else {
            MAX_BACKOFF_SECS as nat
        },
{
    if attempts >= 6 {
        proof {
            lemma_pow2_at_least(attempts as nat, 6);
            assert(pow2(6) == 64) by {
                reveal_with_fuel(pow2, 7);
            }
        }
        MAX_BACKOFF_SECS
    } else {
        let mut d: u64 = 1;
        let mut i: u32 = 0;
        while i < attempts
            invariant
                i <= attempts < 6,
                d as nat == pow2(i as nat),
            decreases attempts - i,
        {
            proof {
                lemma_pow2_increases(i as nat, 5);
                assert(pow2(5) == 32) by {
                    reveal_with_fuel(pow2, 6);
                }
            }
            d = d * 2;
            i = i + 1;
        }
        proof {
            lemma_pow2_increases(attempts as nat, 5);
            assert(pow2(5) == 32) by {
                reveal_with_fuel(pow2, 6);
            }
        }
        d
    }
}

/// 2^n grows with n.
proof fn lemma_pow2_increases(m: nat, n: nat)
    requires
        m <= n,
    ensures
        pow2(m) <= pow2(n),
    decreases n,
{
    if m < n {
        lemma_pow2_increases(m, (n - 1) as nat);
    }
}

/// 2^n is at least 2^k once n reaches k.
proof fn lemma_pow2_at_least(n: nat, k: nat)
    requires
        k <= n,
    ensures
        pow2(n) >= pow2(k),
{
    lemma_pow2_increases(k, n);
}

/// Connection lifecycle state: Disconnected and Connected, with the
/// reconnect-attempt counter that drives the backoff schedule. The
/// transport handle itself lives with the I/O layer; reconnection policy
/// lives in the coordinator loop, not here.
pub struct ConnectionState {
    pub connected: bool,
    pub reconnect_attempts: u32,
    pub device_id: String,
    pub device_name: String,
    pub server_url: String,
}

impl ConnectionState {
    /// A fresh, disconnected state for the given identity and endpoint.
    pub fn new(device_id: String, device_name: String, server_url: String) -> (state:
        ConnectionState)
        ensures
            !state.connected,
            state.reconnect_attempts == 0,
            state.device_id@ == device_id@,
            state.device_name@ == device_name@,
            state.server_url@ == server_url@,
    {
        ConnectionState { connected: false, reconnect_attempts: 0, device_id, device_name, server_url }
    }

    /// A successful connect: now Connected, the attempt counter resets to
    /// zero, and the `Connect` frame introducing this device must be sent
    /// at once.
    pub fn on_connect_success(&mut self) -> (frame: SyncMessage)
        ensures
            final(self).connected,
            final(self).reconnect_attempts == 0,
            final(self).device_id == old(self).device_id,
            final(self).device_name == old(self).device_name,
            final(self).server_url == old(self).server_url,
            frame@ == (MessageModel::Connect {
                device_id: old(self).device_id@,
                device_name: old(self).device_name@,
            }),
    {
        self.connected = true;
        self.reconnect_attempts = 0;
        SyncMessage::Connect {
            device_id: self.device_id.clone(),
            device_name: self.device_name.clone(),
        }
    }

    /// A failed connect: count the attempt; the state stays as it was
    /// otherwise, and the caller backs off before retrying.
    pub fn on_connect_failure(&mut self)
        ensures
            final(self).connected == old(self).connected,
            final(self).reconnect_attempts as int == if old(self).reconnect_attempts
                < u32::MAX {
                old(self).reconnect_attempts + 1
            } else {
                u32::MAX as int
            },
            final(self).device_id == old(self).device_id,
            final(self).device_name == old(self).device_name,
            final(self).server_url == old(self).server_url,
    {
        if self.reconnect_attempts < u32::MAX {
            self.reconnect_attempts = self.reconnect_attempts + 1;
        }
    }

    /// The transport is gone: closed gracefully, closed by the peer, or
    /// failed. Idempotent; the attempt counter is untouched, so it only
    /// resets on a later successful connect.
    pub fn disconnect(&mut self)
        ensures
            !final(self).connected,
            final(self).reconnect_attempts == old(self).reconnect_attempts,
            final(self).device_id == old(self).device_id,
            final(self).device_name == old(self).device_name,
            final(self).server_url == old(self).server_url,
    {
        self.connected = false;
    }

    /// Whether a send may proceed: it fails with the "not connected"
    /// condition exactly when no transport is held.
    pub fn check_send(&self) -> (r: Result<(), SyncError>)
        ensures
            r is Ok <==> self.connected,
            r matches Err(e) ==> e is Transport,
    {
        if self.connected {
            Ok(())
        } else {
            Err(SyncError::Transport("not connected to sync server".to_owned()))
        }
    }

    /// The backoff delay to sleep after the most recent failed attempt.
    pub fn current_backoff_secs(&self) -> (delay: u64)
        ensures
            delay as nat == if pow2(self.reconnect_attempts as nat) < MAX_BACKOFF_SECS {
                pow2(self.reconnect_attempts as nat)
            } else {
                MAX_BACKOFF_SECS as nat
            },
    {
        backoff_delay_secs(self.reconnect_attempts)
    }
}

} // verus!
