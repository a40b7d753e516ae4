//! A byte sink collecting encoded macroblock payloads: bytes written
//! accumulate in an open buffer, and each new block closes the one
//! before it.

use vstd::prelude::*;

verus! {

/// Collects encoded payloads, one byte vector per macroblock, with
/// the id of each block alongside.
pub struct Sink {
    n_blocks: usize,
    subpixels_per_macroblock: usize,
    pub data: Vec<Vec<u8>>,
    buffer: Vec<u8>,
    pub blocks: Vec<usize>,
}

impl Sink {
    /// The closed payloads so far.
    pub closed spec fn payloads(&self) -> Seq<Seq<u8>> {
        self.data@.map_values(|v: Vec<u8>| v@)
    }

    /// The block ids announced so far.
    pub closed spec fn block_ids(&self) -> Seq<usize> {
        self.blocks@
    }

    /// The bytes of the still-open payload.
    pub closed spec fn open_bytes(&self) -> Seq<u8> {
        self.buffer@
    }

    /// A fresh sink with no payloads.
    pub fn new(n_blocks: usize, subpixels_per_macroblock: usize) -> (r: Self)
        ensures
            r.payloads().len() == 0,
            r.block_ids().len() == 0,
            r.open_bytes().len() == 0,
    {
        let r = Sink {
            n_blocks,
            subpixels_per_macroblock,
            data: Vec::new(),
            buffer: Vec::new(),
            blocks: Vec::new(),
        };
        proof {
            assert(r.payloads() =~= Seq::<Seq<u8>>::empty());
        }
        r
    }

    /// Appends one byte to the open payload.
    pub fn write(&mut self, byte: u8)
        ensures
            final(self).open_bytes() == old(self).open_bytes().push(byte),
            final(self).payloads() == old(self).payloads(),
            final(self).block_ids() == old(self).block_ids(),
    {
        self.buffer.push(byte);
    }

    /// Starts the payload of block `block`: closes the open payload
    /// when it holds any bytes, and records the new block's id.
    pub fn new_block(&mut self, block: usize)
        ensures
            final(self).block_ids() == old(self).block_ids().push(block),
            final(self).open_bytes().len() == 0,
            old(self).open_bytes().len() > 0 ==> final(self).payloads() == old(
                self,
            ).payloads().push(old(self).open_bytes()),
            old(self).open_bytes().len() == 0 ==> final(self).payloads() == old(self).payloads(),
    {
        let ghost ps = self.payloads();
        if self.buffer.len() > 0 {
            let mut fresh: Vec<u8> = Vec::new();
            core::mem::swap(&mut fresh, &mut self.buffer);
            self.data.push(fresh);
            proof {
                assert(self.payloads() =~= ps.push(old(self).buffer@));
            }
        }
        self.blocks.push(block);
    }

    /// Closes the open payload when it holds any bytes.
    pub fn push_final_block(&mut self)
        ensures
            final(self).open_bytes().len() == 0,
            final(self).block_ids() == old(self).block_ids(),
            old(self).open_bytes().len() > 0 ==> final(self).payloads() == old(
                self,
            ).payloads().push(old(self).open_bytes()),
            old(self).open_bytes().len() == 0 ==> final(self).payloads() == old(self).payloads(),
    {
        let ghost ps = self.payloads();
        if self.buffer.len() > 0 {
            let mut fresh: Vec<u8> = Vec::new();
            core::mem::swap(&mut fresh, &mut self.buffer);
            self.data.push(fresh);
            proof {
                assert(self.payloads() =~= ps.push(old(self).buffer@));
            }
        }
    }

    /// Drops every payload and the open buffer.
    pub fn clear(&mut self)
        ensures
            final(self).payloads().len() == 0,
            final(self).block_ids().len() == 0,
            final(self).open_bytes().len() == 0,
    {
        self.data = Vec::new();
        self.buffer = Vec::new();
        self.blocks = Vec::new();
        proof {
            assert(self.payloads() =~= Seq::<Seq<u8>>::empty());
        }
    }

    /// The closed payloads paired with their block ids.
    pub fn get(&self) -> (r: Vec<(usize, Vec<u8>)>)
        requires
            self.block_ids().len() >= self.payloads().len(),
        ensures
            r@.len() == self.payloads().len(),
            forall|i: int|
                0 <= i < r@.len() ==> (#[trigger] r@[i]).0 == self.block_ids()[i] && r@[i].1@
                    == self.payloads()[i],
    {
        let mut result: Vec<(usize, Vec<u8>)> = Vec::new();
        let mut i: usize = 0;
        while i < self.data.len()
            invariant
                i <= self.data@.len(),
                self.blocks@.len() >= self.data@.len(),
                result@.len() == i,
                forall|k: int|
                    0 <= k < i ==> (#[trigger] result@[k]).0 == self.blocks@[k] && result@[k].1@
                        == self.data@[k]@,
            decreases self.data@.len() - i,
        {
            let mut bytes: Vec<u8> = Vec::new();
            let mut j: usize = 0;
            while j < self.data[i].len()
                invariant
                    i < self.data@.len(),
                    j <= self.data@[i as int]@.len(),
                    bytes@ == self.data@[i as int]@.subrange(0, j as int),
                decreases self.data@[i as int]@.len() - j,
            {
                bytes.push(self.data[i][j]);
                proof {
                    assert(bytes@ =~= self.data@[i as int]@.subrange(0, j + 1));
                }
                j += 1;
            }
            proof {
                assert(bytes@ =~= self.data@[i as int]@);
            }
            result.push((self.blocks[i], bytes));
            i += 1;
        }
        result
    }

    /// Total bytes over all closed payloads.
    pub fn len(&self) -> (r: usize)
        requires
            spec_sink_total(self.payloads()) <= usize::MAX,
        ensures
            r == spec_sink_total(self.payloads()),
    {
        let mut s: usize = 0;
        let mut i: usize = 0;
        proof {
            lemma_sink_total_prefix(self.payloads());
        }
        while i < self.data.len()
            invariant
                i <= self.data@.len(),
                s == spec_sink_total(self.payloads().take(i as int)),
                spec_sink_total(self.payloads()) <= usize::MAX,
                forall|k: int|
                    0 <= k <= self.payloads().len() ==> #[trigger] spec_sink_total(
                        self.payloads().take(k),
                    ) <= spec_sink_total(self.payloads()),
            decreases self.data@.len() - i,
        {
            proof {
                assert(self.payloads().take(i + 1).drop_last() =~= self.payloads().take(i as int));
                assert(self.payloads().take(i + 1).last() == self.payloads()[i as int]);
                assert(spec_sink_total(self.payloads().take(i + 1)) <= spec_sink_total(
                    self.payloads(),
                ));
            }
            s = s + self.data[i].len();
            i += 1;
        }
        proof {
            assert(self.payloads().take(self.payloads().len() as int) =~= self.payloads());
        }
        s
    }

    /// The id and byte length of closed payload `block`, when it
    /// exists.
    pub fn block_and_len(&self, block: usize) -> (r: Option<(usize, usize)>)
        ensures
            match r {
                Some(p) => (block as int) < self.payloads().len() && p.0 == block && p.1
                    == self.payloads()[block as int].len(),
                None => (block as int) >= self.payloads().len(),
            },
    {
        if block < self.data.len() {
            Some((block, self.data[block].len()))
        } else {
            None
        }
    }
}

/// The total byte count of a run of payloads.
pub open spec fn spec_sink_total(ps: Seq<Seq<u8>>) -> int
    decreases ps.len(),
{
    if ps.len() == 0 {
        0
    } else {
        spec_sink_total(ps.drop_last()) + ps.last().len()
    }
}

/// Prefix totals never exceed the whole.
proof fn lemma_sink_total_prefix(ps: Seq<Seq<u8>>)
    ensures
        forall|k: int|
            0 <= k <= ps.len() ==> #[trigger] spec_sink_total(ps.take(k)) <= spec_sink_total(ps),
{
    assert forall|k: int|
        0 <= k <= ps.len() implies #[trigger] spec_sink_total(ps.take(k)) <= spec_sink_total(
        ps,
    ) by {
        lemma_sink_total_prefix_one(ps, k);
    }
}

/// One prefix total never exceeds the whole.
proof fn lemma_sink_total_prefix_one(ps: Seq<Seq<u8>>, k: int)
    requires
        0 <= k <= ps.len(),
    ensures
        spec_sink_total(ps.take(k)) <= spec_sink_total(ps),
    decreases ps.len() - k,
{
    if k == ps.len() {
        assert(ps.take(k) =~= ps);
    } else {
        lemma_sink_total_prefix_one(ps, k + 1);
        assert(ps.take(k + 1).drop_last() =~= ps.take(k));
        assert(ps.take(k + 1).last() == ps[k]);
    }
}

} // verus!
