//! Memory accounting for the aggregation state: a consumer that asks
//! a byte budget for grants and returns them, and a short-lived pool
//! that amortizes many small requests into block-sized grants.

use vstd::prelude::*;

use crate::types::ExecError;

verus! {

/// Accounting data structure for memory usage: what the aggregation
/// operator has been granted out of a fixed byte budget.
pub struct AggregationStateMemoryConsumer {
    /// Currently used size in bytes.
    pub used: usize,
    /// The budget the manager enforces.
    pub limit: usize,
    /// All bytes ever granted.
    pub granted: Ghost<nat>,
    /// All bytes ever given back.
    pub shrunk: Ghost<nat>,
}

impl AggregationStateMemoryConsumer {
    /// Grants match releases plus the running balance.
    pub open spec fn balanced(&self) -> bool {
        self.granted@ == self.shrunk@ + self.used
    }

    /// A fresh consumer against the given budget.
    pub fn new(limit: usize) -> (r: AggregationStateMemoryConsumer)
        ensures
            r.used == 0,
            r.limit == limit,
            r.granted@ == 0,
            r.shrunk@ == 0,
            r.balanced(),
    {
        AggregationStateMemoryConsumer { used: 0, limit, granted: Ghost(0), shrunk: Ghost(0) }
    }

    /// Requests `n` bytes: granted exactly when they fit the budget,
    /// refused with a resources-exhausted error otherwise.
    pub fn try_grow(&mut self, n: usize) -> (r: Result<(), ExecError>)
        ensures
            match r {
                Result::Ok(()) => old(self).used + n <= old(self).limit && final(self).used == old(
                    self,
                ).used + n && final(self).granted@ == old(self).granted@ + n,
                Result::Err(e) => e is ResourcesExhausted && old(self).used + n > old(self).limit
                    && *final(self) == *old(self),
            },
            final(self).limit == old(self).limit,
            final(self).shrunk@ == old(self).shrunk@,
            old(self).balanced() ==> final(self).balanced(),
    {
        if n <= self.limit && self.used <= self.limit - n {
            self.used = self.used + n;
            proof {
                self.granted@ = (self.granted@ + n) as nat;
            }
            Result::Ok(())
        } else {
            Result::Err(ExecError::ResourcesExhausted)
        }
    }

    /// Releases `n` bytes unconditionally.
    pub fn shrink(&mut self, n: usize)
        requires
            n <= old(self).used,
        ensures
            final(self).used == old(self).used - n,
            final(self).limit == old(self).limit,
            final(self).granted@ == old(self).granted@,
            final(self).shrunk@ == old(self).shrunk@ + n,
            old(self).balanced() ==> final(self).balanced(),
    {
        self.used = self.used - n;
        proof {
            self.shrunk@ = (self.shrunk@ + n) as nat;
        }
    }

    /// The aggregation state cannot be spilled: a spill request is
    /// always refused with a resources-exhausted error.
    pub fn spill(&self) -> (r: Result<usize, ExecError>)
        ensures
            r matches Result::Err(e) && e is ResourcesExhausted,
    {
        Result::Err(ExecError::ResourcesExhausted)
    }

    /// Currently used size in bytes.
    pub fn mem_used(&self) -> (r: usize)
        ensures
            r == self.used,
    {
        self.used
    }
}

/// Memory pool that can be used in a function scope: it grants whole
/// blocks and keeps the slack for the next request, giving back the
/// over-allocated bytes when it is closed.
pub struct ShortLivedMemoryPool {
    /// The block size grants are rounded up to.
    pub block_size: usize,
    /// Unused bytes of the granted blocks.
    pub remaining: usize,
}

impl ShortLivedMemoryPool {
    /// A fresh pool with the default one-mebibyte block.
    pub fn new() -> (r: ShortLivedMemoryPool)
        ensures
            r.block_size == 0x100000,
            r.remaining == 0,
    {
        ShortLivedMemoryPool { block_size: 0x100000, remaining: 0 }
    }

    /// Takes `bytes` from the pool: served from the current block's
    /// slack when it suffices, with nothing granted; otherwise the
    /// deficit, rounded up to the block size, is granted in one
    /// request, which succeeds exactly when it fits the budget.
    pub fn allocate(&mut self, consumer: &mut AggregationStateMemoryConsumer, bytes: usize) -> (r:
        Result<(), ExecError>)
        requires
            old(self).block_size <= usize::MAX - bytes,
            old(self).remaining <= old(consumer).used,
        ensures
            final(self).block_size == old(self).block_size,
            final(consumer).limit == old(consumer).limit,
            bytes <= old(self).remaining ==> r is Ok && *final(consumer) == *old(consumer)
                && final(self).remaining == old(self).remaining - bytes,
            bytes > old(self).remaining ==> ({
                let deficit = bytes - old(self).remaining;
                let granted = if deficit > old(self).block_size {
                    deficit
                } else {
                    old(self).block_size as int
                };
                match r {
                    Result::Ok(()) => {
                        &&& old(consumer).used + granted <= old(consumer).limit
                        &&& final(consumer).used == old(consumer).used + granted
                        &&& final(consumer).granted@ == old(consumer).granted@ + granted
                        &&& final(self).remaining == granted - deficit
                    },
                    Result::Err(e) => {
                        &&& e is ResourcesExhausted
                        &&& old(consumer).used + granted > old(consumer).limit
                    },
                }
            }),
            match r {
                Result::Ok(()) => {
                    &&& final(consumer).used - final(self).remaining == old(consumer).used - old(
                        self,
                    ).remaining + bytes
                    &&& final(consumer).used >= old(consumer).used
                    &&& final(consumer).granted@ >= old(consumer).granted@
                    &&& final(consumer).shrunk@ == old(consumer).shrunk@
                    &&& final(self).remaining <= final(consumer).used
                },
                Result::Err(e) => e is ResourcesExhausted && *final(consumer) == *old(consumer)
                    && final(self).remaining == old(self).remaining,
            },
            old(consumer).balanced() ==> final(consumer).balanced(),
    {
        if bytes <= self.remaining {
            self.remaining = self.remaining - bytes;
            return Result::Ok(());
        }
        let need = bytes - self.remaining;
        let alloc_size = if need > self.block_size {
            need
        } else {
            self.block_size
        };
        match consumer.try_grow(alloc_size) {
            Result::Ok(()) => {
                self.remaining = alloc_size - need;
                Result::Ok(())
            },
            Result::Err(e) => Result::Err(e),
        }
    }

    /// Gives the unused bytes of the current block back.
    pub fn close(&mut self, consumer: &mut AggregationStateMemoryConsumer)
        requires
            old(self).remaining <= old(consumer).used,
        ensures
            final(self).remaining == 0,
            final(self).block_size == old(self).block_size,
            final(consumer).used == old(consumer).used - old(self).remaining,
            final(consumer).limit == old(consumer).limit,
            final(consumer).granted@ == old(consumer).granted@,
            final(consumer).shrunk@ == old(consumer).shrunk@ + old(self).remaining,
            old(consumer).balanced() ==> final(consumer).balanced(),
    {
        consumer.shrink(self.remaining);
        self.remaining = 0;
    }
}

} // verus!
