//! The EC flash protocol: an unlocked session over one controller, with
//! block reads, a global erase and block writes.
use vstd::prelude::*;
use crate::registers::{EcRegisters, Op};
use crate::update::{ImageInfo, ImageMeta};

verus! {

/// Bytes in one flash block, the unit that read and write commands address.
pub const BLOCK_SIZE: usize = 65536;

/// Settle delays issued after the erase command.
pub const ERASE_STALLS: usize = 64;

/// Length of each settle delay, in microseconds.
pub const ERASE_STALL_US: u32 = 15000;

/// The tuning bytes that the capability nibble selects.
pub open spec fn profile(param: u8) -> (u8, u8) {
    if param & 0xf0 == 0x40 {
        (0xc0, 0x03)
    } else if param & 0xf0 == 0x80 {
        (0xff, 0x04)
    } else {
        (0x80, 0x01)
    }
}

/// The unlock sequence, given the capability parameter and the value of the
/// throwaway read that ends the handshake.
pub open spec fn unlock_ops(param: u8, last: u8) -> Seq<Op> {
    seq![
        Op::SetParam(0xf9, 0x20),
        Op::SetParam(0xfa, 0x02),
        Op::SetParam(0xfb, 0x00),
        Op::SetParam(0xf8, 0xb1),
        Op::GetParam(0xf9, param),
        Op::Cmd(0xde),
        Op::Cmd(0xdc),
        Op::Cmd(0xf0),
        Op::Read(last),
    ]
}

/// The erase sequence: the erase command, then the settle delays.
pub open spec fn erase_ops() -> Seq<Op> {
    seq![Op::Cmd(0x01), Op::Cmd(0x00), Op::Cmd(0x00), Op::Cmd(0x00), Op::Cmd(0x00)]
        + Seq::new(ERASE_STALLS as nat, |i: int| Op::Stall(ERASE_STALL_US))
}

/// Number of whole blocks in a flash of `size` bytes.
pub open spec fn block_count(size: usize) -> nat {
    (size / BLOCK_SIZE) as nat
}

/// The `n` blocks of `bytes`: for block `k`, the command `head(k)`, then one
/// transaction `each(v)` for each of its bytes `v`.
pub open spec fn blocks_ops(
    bytes: Seq<u8>,
    n: nat,
    head: spec_fn(int) -> Seq<Op>,
    each: spec_fn(u8) -> Op,
) -> Seq<Op>
    decreases n,
{
    if n == 0 {
        seq![]
    } else {
        blocks_ops(bytes, (n - 1) as nat, head, each) + head(n - 1) + bytes.subrange(
            (n - 1) * BLOCK_SIZE,
            n * BLOCK_SIZE,
        ).map_values(each)
    }
}

/// The command that starts reading block `k`.
pub open spec fn read_head(k: int) -> Seq<Op> {
    seq![Op::Cmd(0x03), Op::Cmd(k as u8)]
}

/// The command that starts writing block `k`.
pub open spec fn write_head(k: int) -> Seq<Op> {
    seq![Op::Cmd(0x02), Op::Cmd(0x00), Op::Cmd(k as u8), Op::Cmd(0x00), Op::Cmd(0x00)]
}

/// `read_head` as a function value.
pub open spec fn read_heads() -> spec_fn(int) -> Seq<Op> {
    |k: int| read_head(k)
}

/// `write_head` as a function value.
pub open spec fn write_heads() -> spec_fn(int) -> Seq<Op> {
    |k: int| write_head(k)
}

/// The transaction of one data byte read.
pub open spec fn read_each() -> spec_fn(u8) -> Op {
    |v: u8| Op::Read(v)
}

/// The transaction of one data byte written.
pub open spec fn write_each() -> spec_fn(u8) -> Op {
    |v: u8| Op::Write(v)
}

/// Reading the first `n` blocks, whose bytes came back as `vals`.
pub open spec fn read_ops(vals: Seq<u8>, n: nat) -> Seq<Op> {
    blocks_ops(vals, n, read_heads(), read_each())
}

/// Writing `bytes` into the first `n` blocks.
pub open spec fn write_ops(bytes: Seq<u8>, n: nat) -> Seq<Op> {
    blocks_ops(bytes, n, write_heads(), write_each())
}

/// The blocks issued depend only on the bytes that they cover.
pub proof fn lemma_blocks_ops_stable(
    b1: Seq<u8>,
    b2: Seq<u8>,
    n: nat,
    head: spec_fn(int) -> Seq<Op>,
    each: spec_fn(u8) -> Op,
)
    requires
        b1.len() >= n * BLOCK_SIZE,
        b2.len() >= n * BLOCK_SIZE,
        b1.take(n * BLOCK_SIZE) == b2.take(n * BLOCK_SIZE),
    ensures
        blocks_ops(b1, n, head, each) == blocks_ops(b2, n, head, each),
    decreases n,
{
    if n > 0 {
        let m = (n - 1) as nat;
        assert(b1.take(m * BLOCK_SIZE) =~= b1.take(n * BLOCK_SIZE).take(m * BLOCK_SIZE));
        assert(b2.take(m * BLOCK_SIZE) =~= b2.take(n * BLOCK_SIZE).take(m * BLOCK_SIZE));
        lemma_blocks_ops_stable(b1, b2, m, head, each);
        assert(b1.subrange(m * BLOCK_SIZE, n * BLOCK_SIZE) =~= b1.take(n * BLOCK_SIZE).subrange(
            m * BLOCK_SIZE,
            n * BLOCK_SIZE,
        ));
        assert(b2.subrange(m * BLOCK_SIZE, n * BLOCK_SIZE) =~= b2.take(n * BLOCK_SIZE).subrange(
            m * BLOCK_SIZE,
            n * BLOCK_SIZE,
        ));
    }
}

/// Fewer blocks issue a prefix of what more blocks issue.
pub proof fn lemma_blocks_ops_prefix(
    bytes: Seq<u8>,
    m: nat,
    n: nat,
    head: spec_fn(int) -> Seq<Op>,
    each: spec_fn(u8) -> Op,
)
    requires
        m <= n,
        bytes.len() >= n * BLOCK_SIZE,
    ensures
        blocks_ops(bytes, m, head, each).len() <= blocks_ops(bytes, n, head, each).len(),
        blocks_ops(bytes, m, head, each) == blocks_ops(bytes, n, head, each).take(
            blocks_ops(bytes, m, head, each).len() as int,
        ),
    decreases n,
{
    let bm = blocks_ops(bytes, m, head, each);
    let bn = blocks_ops(bytes, n, head, each);
    if m == n {
        assert(bm =~= bn.take(bm.len() as int));
    } else {
        let k = (n - 1) as nat;
        lemma_blocks_ops_prefix(bytes, m, k, head, each);
        let bk = blocks_ops(bytes, k, head, each);
        assert(bk =~= bn.take(bk.len() as int));
        assert(bm =~= bn.take(bm.len() as int));
    }
}

/// A session cut short inside block `i`, after `h` bytes of its command and
/// the bytes of the block up to `pos`, issued a strict prefix of the whole.
pub proof fn lemma_blocks_ops_partial(
    bytes: Seq<u8>,
    i: nat,
    n: nat,
    h: int,
    pos: int,
    head: spec_fn(int) -> Seq<Op>,
    each: spec_fn(u8) -> Op,
)
    requires
        i < n,
        bytes.len() == n * BLOCK_SIZE,
        0 <= h <= head(i as int).len(),
        i * BLOCK_SIZE <= pos < (i + 1) * BLOCK_SIZE,
        h < head(i as int).len() ==> pos == i * BLOCK_SIZE,
    ensures
        ({
            let done = blocks_ops(bytes, i, head, each) + head(i as int).take(h) + bytes.subrange(
                i * BLOCK_SIZE,
                pos,
            ).map_values(each);
            let all = blocks_ops(bytes, n, head, each);
            done.len() < all.len() && done == all.take(done.len() as int)
        }),
{
    let done = blocks_ops(bytes, i, head, each) + head(i as int).take(h) + bytes.subrange(
        i * BLOCK_SIZE,
        pos,
    ).map_values(each);
    let all = blocks_ops(bytes, n, head, each);
    let next = blocks_ops(bytes, i + 1, head, each);
    assert(next == blocks_ops(bytes, i, head, each) + head(i as int) + bytes.subrange(
        i * BLOCK_SIZE,
        (i + 1) * BLOCK_SIZE,
    ).map_values(each));
    assert(done.len() < next.len());
    assert(done =~= next.take(done.len() as int));
    lemma_blocks_ops_prefix(bytes, i + 1, n, head, each);
    assert(done =~= all.take(done.len() as int));
}

/// Writing `data`, padded with 0xFF, over a flash of `size` bytes.
pub open spec fn image_write_ops(data: Seq<u8>, size: usize) -> Seq<Op> {
    write_ops(pad(data, block_count(size) * BLOCK_SIZE), block_count(size))
}

/// `data` cut or padded with the erased value 0xFF to `len` bytes.
pub open spec fn pad(data: Seq<u8>, len: int) -> Seq<u8> {
    Seq::new(len as nat, |p: int| if p < data.len() { data[p] } else { 0xFFu8 })
}

/// `dest` with its leading bytes replaced by `vals`, as far as it reaches.
pub open spec fn fill(dest: Seq<u8>, vals: Seq<u8>) -> Seq<u8> {
    Seq::new(dest.len(), |p: int| if p < vals.len() { vals[p] } else { dest[p] })
}

/// A read stopped inside block `i`: the blocks before it, `h` bytes of its
/// command, and its bytes up to the end of `got`, which holds every byte
/// read so far.
pub open spec fn read_cut(got: Seq<u8>, i: int, h: int) -> Seq<Op> {
    read_ops(got, i as nat) + read_head(i).take(h) + got.subrange(
        i * BLOCK_SIZE,
        got.len() as int,
    ).map_values(read_each())
}

/// `ops` is a read of `n` blocks that stopped at a failed transaction, after
/// reading the bytes `got`.
pub open spec fn read_stopped(ops: Seq<Op>, n: nat, got: Seq<u8>) -> bool {
    exists|i: int, h: int|
        {
            &&& 0 <= i < n
            &&& 0 <= h <= 2
            &&& i * BLOCK_SIZE <= got.len() < (i + 1) * BLOCK_SIZE
            &&& h < 2 ==> got.len() == i * BLOCK_SIZE
            &&& ops == #[trigger] read_cut(got, i, h).push(Op::Failed)
        }
}

/// `ops` is an erase that stopped at a failed command.
pub open spec fn erase_stopped(ops: Seq<Op>) -> bool {
    exists|k: int| 0 <= k < 5 && ops == #[trigger] erase_ops().take(k).push(Op::Failed)
}

/// `ops` is a write of `data` over a flash of `size` bytes that stopped at a
/// failed transaction.
pub open spec fn write_stopped(ops: Seq<Op>, data: Seq<u8>, size: usize) -> bool {
    exists|k: int|
        0 <= k < image_write_ops(data, size).len() && ops == #[trigger] image_write_ops(
            data,
            size,
        ).take(k).push(Op::Failed)
}

proof fn lemma_read_stop(
    t0: Seq<Op>,
    t: Seq<Op>,
    vals: Seq<u8>,
    done: Seq<u8>,
    i: nat,
    n: nat,
    h: int,
)
    requires
        i < n,
        0 <= h <= 2,
        done.len() == i * BLOCK_SIZE,
        i * BLOCK_SIZE <= vals.len() < (i + 1) * BLOCK_SIZE,
        vals.take(i * BLOCK_SIZE) == done,
        h < 2 ==> vals.len() == i * BLOCK_SIZE,
        t == t0 + (read_ops(done, i) + read_head(i as int).take(h) + vals.subrange(
            i * BLOCK_SIZE,
            vals.len() as int,
        ).map_values(read_each())).push(Op::Failed),
    ensures
        exists|ops: Seq<Op>| t == t0 + ops && #[trigger] read_stopped(ops, n, vals),
{
    assert(vals.take(i * BLOCK_SIZE) =~= done.take(i * BLOCK_SIZE));
    lemma_blocks_ops_stable(vals, done, i, read_heads(), read_each());
    let ops = read_cut(vals, i as int, h).push(Op::Failed);
    assert(t =~= t0 + ops);
    assert(read_stopped(ops, n, vals));
}

/// An unlocked flashing session that owns its controller.
pub struct EcFlasher<R: EcRegisters> {
    ec: R,
    size: usize,
    project: String,
    version: String,
    a: u8,
    b: u8,
}

impl<R: EcRegisters> EcFlasher<R> {
    /// The controller keeps its own invariant.
    pub closed spec fn wf(&self) -> bool {
        self.ec.inv()
    }

    /// The controller's transactions so far.
    pub closed spec fn trace(&self) -> Seq<Op> {
        self.ec.trace()
    }

    /// The flash size captured at unlock.
    pub closed spec fn spec_size(&self) -> usize {
        self.size
    }

    /// The project captured at unlock.
    pub closed spec fn spec_project(&self) -> Seq<char> {
        self.project@
    }

    /// The version captured at unlock.
    pub closed spec fn spec_version(&self) -> Seq<char> {
        self.version@
    }

    /// The snapshot taken at unlock.
    pub open spec fn snapshot(&self) -> ImageMeta {
        ImageMeta {
            project: self.spec_project(),
            version: self.spec_version(),
            size: self.spec_size() as int,
        }
    }

    /// The metadata the controller last reported.
    pub closed spec fn reported(&self) -> ImageMeta {
        self.ec.reported()
    }

    /// The tuning bytes chosen at unlock.
    pub closed spec fn tuning(&self) -> (u8, u8) {
        (self.a, self.b)
    }

    /// The flash size captured at unlock.
    pub fn size(&self) -> (r: usize)
        ensures
            r == self.spec_size(),
    {
        self.size
    }

    /// The project captured at unlock.
    pub fn project(&self) -> (r: String)
        ensures
            r@ == self.spec_project(),
    {
        self.project.clone()
    }

    /// The version captured at unlock.
    pub fn version(&self) -> (r: String)
        ensures
            r@ == self.spec_version(),
    {
        self.version.clone()
    }

    /// The snapshot taken at unlock, as image metadata.
    pub fn info(&self) -> (r: ImageInfo)
        ensures
            r@ == self.snapshot(),
    {
        ImageInfo { project: self.project.clone(), version: self.version.clone(), size: self.size }
    }

    /// Ends the session and hands the controller back.
    pub fn into_inner(self) -> (r: R)
        requires
            self.wf(),
        ensures
            r.inv(),
            r.trace() == self.trace(),
    {
        self.ec
    }

    /// Unlocks `ec` for flashing, after taking a snapshot of its project,
    /// version and size, which the session keeps as its snapshot. On failure
    /// the controller is handed back: it has seen the part of the unlock
    /// sequence that completed, then the failed transaction, and nothing else.
    pub fn new(ec: R) -> (r: Result<EcFlasher<R>, R>)
        requires
            ec.inv(),
        ensures
            match r {
                Ok(f) => f.wf(),
                Err(e) => e.inv(),
            },
            match r {
                Ok(f) => exists|p: u8, x: u8|
                    f.trace() == ec.trace() + unlock_ops(p, x) && f.tuning() == profile(p),
                Err(e) => exists|p: u8, x: u8, k: int|
                    0 <= k < 9 && e.trace() == ec.trace() + unlock_ops(p, x).take(k).push(
                        Op::Failed,
                    ),
            },
            r matches Ok(f) ==> f.snapshot() == f.reported(),
    {
        let mut ec = ec;
        let ghost t0 = ec.trace();
        let project = ec.project();
        let version = ec.version();
        let size = ec.size();
        if ec.set_param(0xf9, 0x20).is_err() {
            assert(ec.trace() =~= t0 + unlock_ops(0, 0).take(0).push(Op::Failed));
            return Err(ec);
        }
        if ec.set_param(0xfa, 0x02).is_err() {
            assert(ec.trace() =~= t0 + unlock_ops(0, 0).take(1).push(Op::Failed));
            return Err(ec);
        }
        if ec.set_param(0xfb, 0x00).is_err() {
            assert(ec.trace() =~= t0 + unlock_ops(0, 0).take(2).push(Op::Failed));
            return Err(ec);
        }
        if ec.set_param(0xf8, 0xb1).is_err() {
            assert(ec.trace() =~= t0 + unlock_ops(0, 0).take(3).push(Op::Failed));
            return Err(ec);
        }
        let param = match ec.get_param(0xf9) {
            Ok(v) => v,
            Err(()) => {
                assert(ec.trace() =~= t0 + unlock_ops(0, 0).take(4).push(Op::Failed));
                return Err(ec);
            },
        };
        let (a, b): (u8, u8) = match param & 0xf0 {
            0x40 => (0xc0, 0x03),
            0x80 => (0xff, 0x04),
            _ => (0x80, 0x01),
        };
        if ec.cmd(0xde).is_err() {
            assert(ec.trace() =~= t0 + unlock_ops(param, 0).take(5).push(Op::Failed));
            return Err(ec);
        }
        if ec.cmd(0xdc).is_err() {
            assert(ec.trace() =~= t0 + unlock_ops(param, 0).take(6).push(Op::Failed));
            return Err(ec);
        }
        if ec.cmd(0xf0).is_err() {
            assert(ec.trace() =~= t0 + unlock_ops(param, 0).take(7).push(Op::Failed));
            return Err(ec);
        }
        match ec.read() {
            Ok(x) => {
                assert(ec.trace() =~= t0 + unlock_ops(param, x));
                let f = EcFlasher { ec, size, project, version, a, b };
                assert(f.snapshot() =~= f.reported());
                Ok(f)
            },
            Err(()) => {
                assert(ec.trace() =~= t0 + unlock_ops(param, 0).take(8).push(Op::Failed));
                Err(ec)
            },
        }
    }

    /// Reads the first `size / BLOCK_SIZE` blocks. Every byte of every block
    /// is read from the controller; the leading ones are stored in `data` as
    /// far as it reaches, and the rest are discarded. A failed transaction
    /// ends the read: `data` then holds the bytes read before it, and the
    /// rest of `data` is as it was.
    pub fn read(&mut self, data: &mut [u8]) -> (r: Result<(), ()>)
        requires
            old(self).wf(),
        ensures
            final(self).wf(),
            final(self).spec_size() == old(self).spec_size(),
            final(self).spec_project() == old(self).spec_project(),
            final(self).spec_version() == old(self).spec_version(),
            final(self).tuning() == old(self).tuning(),
            final(data)@.len() == old(data)@.len(),
            r is Ok ==> exists|vals: Seq<u8>|
                {
                    &&& vals.len() == block_count(old(self).spec_size()) * BLOCK_SIZE
                    &&& final(self).trace() == old(self).trace() + read_ops(
                        vals,
                        block_count(old(self).spec_size()),
                    )
                    &&& final(data)@ == fill(old(data)@, vals)
                },
            r is Err ==> exists|ops: Seq<Op>, got: Seq<u8>|
                {
                    &&& final(self).trace() == old(self).trace() + ops
                    &&& #[trigger] read_stopped(ops, block_count(old(self).spec_size()), got)
                    &&& final(data)@ == fill(old(data)@, got)
                },
    {
        let n = self.size / BLOCK_SIZE;
        let ghost t0 = self.ec.trace();
        let ghost d0 = data@;
        let ghost nb = block_count(self.size);
        assert(nb == block_count(old(self).spec_size()));
        let ghost mut vals: Seq<u8> = seq![];
        assert(n * BLOCK_SIZE <= self.size);
        let mut pos: usize = 0;
        let mut i: usize = 0;
        while i < n
            invariant
                n == nb,
                nb == block_count(old(self).spec_size()),
                n * BLOCK_SIZE <= self.size,
                i <= n,
                pos == i * BLOCK_SIZE,
                vals.len() == pos,
                t0 == old(self).ec.trace(),
                d0 == old(data)@,
                self.ec.trace() == t0 + read_ops(vals, i as nat),
                data@ == fill(d0, vals),
                self.size == old(self).size,
                self.ec.inv(),
                self.project == old(self).project,
                self.version == old(self).version,
                self.a == old(self).a,
                self.b == old(self).b,
            decreases n - i,
        {
            let ghost done = vals;
            let ghost base = self.ec.trace();
            if self.ec.cmd(0x03).is_err() {
                proof {
                    assert(vals.take(i * BLOCK_SIZE) =~= done);
                    assert(self.ec.trace() =~= t0 + (read_ops(done, i as nat) + read_head(
                        i as int,
                    ).take(0) + vals.subrange(i * BLOCK_SIZE, pos as int).map_values(
                        read_each(),
                    )).push(Op::Failed));
                    lemma_read_stop(old(self).trace(), self.trace(), vals, done, i as nat, nb, 0);
                }
                return Err(());
            }
            if self.ec.cmd(#[verifier::truncate] (i as u8)).is_err() {
                proof {
                    assert(vals.take(i * BLOCK_SIZE) =~= done);
                    assert(self.ec.trace() =~= t0 + (read_ops(done, i as nat) + read_head(
                        i as int,
                    ).take(1) + vals.subrange(i * BLOCK_SIZE, pos as int).map_values(
                        read_each(),
                    )).push(Op::Failed));
                    lemma_read_stop(old(self).trace(), self.trace(), vals, done, i as nat, nb, 1);
                }
                return Err(());
            }
            let mut j: usize = 0;
            while j < BLOCK_SIZE
                invariant
                    n == nb,
                    nb == block_count(old(self).spec_size()),
                    n * BLOCK_SIZE <= self.size,
                    i < n,
                    j <= BLOCK_SIZE,
                    pos == i * BLOCK_SIZE + j,
                    vals.len() == pos,
                    done.len() == i * BLOCK_SIZE,
                    vals.take(i * BLOCK_SIZE) == done,
                    t0 == old(self).ec.trace(),
                    d0 == old(data)@,
                    self.ec.trace() == t0 + (read_ops(done, i as nat) + read_head(i as int)
                        + vals.subrange(i * BLOCK_SIZE, pos as int).map_values(read_each())),
                    data@ == fill(d0, vals),
                    self.size == old(self).size,
                    self.ec.inv(),
                    self.project == old(self).project,
                    self.version == old(self).version,
                    self.a == old(self).a,
                    self.b == old(self).b,
                decreases BLOCK_SIZE - j,
            {
                match self.ec.read() {
                    Ok(v) => {
                        if pos < data.len() {
                            data[pos] = v;
                        }
                        proof {
                            let old_vals = vals;
                            vals = vals.push(v);
                            assert(vals.take(i * BLOCK_SIZE) =~= old_vals.take(i * BLOCK_SIZE));
                            assert(vals.subrange(i * BLOCK_SIZE, pos + 1).map_values(read_each())
                                =~= old_vals.subrange(i * BLOCK_SIZE, pos as int).map_values(
                                read_each(),
                            ).push(Op::Read(v)));
                            assert(data@ =~= fill(d0, vals));
                            assert(self.ec.trace() =~= t0 + (read_ops(done, i as nat)
                                + read_head(i as int) + vals.subrange(i * BLOCK_SIZE, pos + 1).map_values(
                                read_each(),
                            )));
                        }
                        pos = pos + 1;
                    },
                    Err(()) => {
                        proof {
                            assert(read_head(i as int).take(2) =~= read_head(i as int));
                            assert(self.ec.trace() =~= t0 + (read_ops(done, i as nat) + read_head(
                                i as int,
                            ).take(2) + vals.subrange(i * BLOCK_SIZE, pos as int).map_values(
                                read_each(),
                            )).push(Op::Failed));
                            lemma_read_stop(old(self).trace(), self.trace(), vals, done, i as nat, nb, 2);
                        }
                        return Err(());
                    },
                }
                j = j + 1;
            }
            proof {
                assert(vals.take(i * BLOCK_SIZE) =~= done.take(i * BLOCK_SIZE));
                lemma_blocks_ops_stable(vals, done, i as nat, read_heads(), read_each());
                assert(read_ops(vals, (i + 1) as nat) == read_ops(vals, i as nat) + read_head(i as int)
                    + vals.subrange(i * BLOCK_SIZE, (i + 1) * BLOCK_SIZE).map_values(read_each()));
                assert(self.ec.trace() =~= t0 + read_ops(vals, (i + 1) as nat));
            }
            i = i + 1;
        }
        Ok(())
    }

    /// Writes `data` into the first `size / BLOCK_SIZE` blocks; where `data`
    /// is shorter, the rest is filled with the erased value 0xFF.
    pub fn write(&mut self, data: &[u8]) -> (r: Result<(), ()>)
        requires
            old(self).wf(),
        ensures
            final(self).wf(),
            final(self).spec_size() == old(self).spec_size(),
            final(self).spec_project() == old(self).spec_project(),
            final(self).spec_version() == old(self).spec_version(),
            final(self).tuning() == old(self).tuning(),
            r is Ok ==> final(self).trace() == old(self).trace() + image_write_ops(
                data@,
                old(self).spec_size(),
            ),
            r is Err ==> exists|ops: Seq<Op>|
                final(self).trace() == old(self).trace() + ops && #[trigger] write_stopped(
                    ops,
                    data@,
                    old(self).spec_size(),
                ),
    {
        let n = self.size / BLOCK_SIZE;
        let ghost t0 = self.ec.trace();
        let ghost nb = block_count(self.size);
        let ghost bytes = pad(data@, nb * BLOCK_SIZE);
        assert(n * BLOCK_SIZE <= self.size);
        let mut pos: usize = 0;
        let mut i: usize = 0;
        while i < n
            invariant
                n == nb,
                nb == block_count(old(self).spec_size()),
                bytes == pad(data@, nb * BLOCK_SIZE),
                n * BLOCK_SIZE <= self.size,
                i <= n,
                pos == i * BLOCK_SIZE,
                t0 == old(self).ec.trace(),
                self.ec.trace() == t0 + write_ops(bytes, i as nat),
                self.size == old(self).size,
                self.ec.inv(),
                self.project == old(self).project,
                self.version == old(self).version,
                self.a == old(self).a,
                self.b == old(self).b,
            decreases n - i,
        {
            let head: [u8; 5] = [0x02, 0x00, #[verifier::truncate] (i as u8), 0x00, 0x00];
            let mut c: usize = 0;
            while c < 5
                invariant
                    n == nb,
                    nb == block_count(old(self).spec_size()),
                    bytes == pad(data@, nb * BLOCK_SIZE),
                    n * BLOCK_SIZE <= self.size,
                    i < n,
                    c <= 5,
                    pos == i * BLOCK_SIZE,
                    head@ == seq![0x02u8, 0x00u8, (i as int) as u8, 0x00u8, 0x00u8],
                    t0 == old(self).ec.trace(),
                    self.ec.trace() == t0 + (write_ops(bytes, i as nat) + write_head(i as int).take(
                        c as int,
                    )),
                    self.size == old(self).size,
                    self.ec.inv(),
                    self.project == old(self).project,
                    self.version == old(self).version,
                    self.a == old(self).a,
                    self.b == old(self).b,
                decreases 5 - c,
            {
                if self.ec.cmd(head[c]).is_err() {
                    proof {
                        lemma_blocks_ops_partial(
                            bytes,
                            i as nat,
                            nb,
                            c as int,
                            pos as int,
                            write_heads(),
                            write_each(),
                        );
                        assert(bytes.subrange(i * BLOCK_SIZE, pos as int).map_values(write_each())
                            =~= seq![]);
                        let cut = write_ops(bytes, i as nat) + write_head(i as int).take(c as int)
                            + bytes.subrange(i * BLOCK_SIZE, pos as int).map_values(write_each());
                        assert(self.trace() =~= old(self).trace() + write_ops(bytes, nb).take(
                            cut.len() as int,
                        ).push(Op::Failed));
                        assert(image_write_ops(data@, old(self).spec_size()) == write_ops(bytes, nb));
                        assert(write_stopped(
                            write_ops(bytes, nb).take(cut.len() as int).push(Op::Failed),
                            data@,
                            old(self).spec_size(),
                        ));
                    }
                    return Err(());
                }
                assert(self.ec.trace() =~= t0 + (write_ops(bytes, i as nat) + write_head(
                    i as int,
                ).take(c + 1)));
                c = c + 1;
            }
            assert(write_head(i as int).take(5) =~= write_head(i as int));
            let mut j: usize = 0;
            while j < BLOCK_SIZE
                invariant
                    n == nb,
                    nb == block_count(old(self).spec_size()),
                    bytes == pad(data@, nb * BLOCK_SIZE),
                    n * BLOCK_SIZE <= self.size,
                    i < n,
                    j <= BLOCK_SIZE,
                    pos == i * BLOCK_SIZE + j,
                    t0 == old(self).ec.trace(),
                    self.ec.trace() == t0 + (write_ops(bytes, i as nat) + write_head(i as int)
                        + bytes.subrange(i * BLOCK_SIZE, pos as int).map_values(write_each())),
                    self.size == old(self).size,
                    self.ec.inv(),
                    self.project == old(self).project,
                    self.version == old(self).version,
                    self.a == old(self).a,
                    self.b == old(self).b,
                decreases BLOCK_SIZE - j,
            {
                let v: u8 = if pos < data.len() {
                    data[pos]
                } else {
                    0xFF
                };
                assert(v == bytes[pos as int]);
                if self.ec.write(v).is_err() {
                    proof {
                        lemma_blocks_ops_partial(
                            bytes,
                            i as nat,
                            nb,
                            5,
                            pos as int,
                            write_heads(),
                            write_each(),
                        );
                        let cut = write_ops(bytes, i as nat) + write_head(i as int).take(5)
                            + bytes.subrange(i * BLOCK_SIZE, pos as int).map_values(write_each());
                        assert(self.trace() =~= old(self).trace() + write_ops(bytes, nb).take(
                            cut.len() as int,
                        ).push(Op::Failed));
                        assert(image_write_ops(data@, old(self).spec_size()) == write_ops(bytes, nb));
                        assert(write_stopped(
                            write_ops(bytes, nb).take(cut.len() as int).push(Op::Failed),
                            data@,
                            old(self).spec_size(),
                        ));
                    }
                    return Err(());
                }
                assert(bytes.subrange(i * BLOCK_SIZE, pos + 1).map_values(write_each())
                    =~= bytes.subrange(i * BLOCK_SIZE, pos as int).map_values(write_each()).push(
                    Op::Write(v),
                ));
                assert(self.ec.trace() =~= t0 + (write_ops(bytes, i as nat) + write_head(i as int)
                    + bytes.subrange(i * BLOCK_SIZE, pos + 1).map_values(write_each())));
                pos = pos + 1;
                j = j + 1;
            }
            assert(write_ops(bytes, (i + 1) as nat) == write_ops(bytes, i as nat) + write_head(
                i as int,
            ) + bytes.subrange(i * BLOCK_SIZE, (i + 1) * BLOCK_SIZE).map_values(write_each()));
            assert(self.ec.trace() =~= t0 + write_ops(bytes, (i + 1) as nat));
            i = i + 1;
        }
        Ok(())
    }

    /// Erases the whole flash: one erase command, then a fixed number of
    /// blind settle delays.
    pub fn erase(&mut self) -> (r: Result<(), ()>)
        requires
            old(self).wf(),
        ensures
            final(self).wf(),
            final(self).spec_size() == old(self).spec_size(),
            final(self).spec_project() == old(self).spec_project(),
            final(self).spec_version() == old(self).spec_version(),
            final(self).tuning() == old(self).tuning(),
            r is Ok ==> final(self).trace() == old(self).trace() + erase_ops(),
            r is Err ==> exists|ops: Seq<Op>|
                final(self).trace() == old(self).trace() + ops && #[trigger] erase_stopped(ops),
    {
        let ghost t0 = self.ec.trace();
        let cmds: [u8; 5] = [0x01, 0x00, 0x00, 0x00, 0x00];
        let mut c: usize = 0;
        while c < 5
            invariant
                c <= 5,
                cmds@ == seq![0x01u8, 0x00u8, 0x00u8, 0x00u8, 0x00u8],
                t0 == old(self).ec.trace(),
                self.ec.trace() == t0 + erase_ops().take(c as int),
                self.size == old(self).size,
                self.ec.inv(),
                self.project == old(self).project,
                self.version == old(self).version,
                self.a == old(self).a,
                self.b == old(self).b,
            decreases 5 - c,
        {
            if self.ec.cmd(cmds[c]).is_err() {
                assert(self.trace() =~= old(self).trace() + erase_ops().take(c as int).push(
                    Op::Failed,
                ));
                assert(erase_stopped(erase_ops().take(c as int).push(Op::Failed)));
                return Err(());
            }
            assert(self.ec.trace() =~= t0 + erase_ops().take(c + 1));
            c = c + 1;
        }
        let mut i: usize = 0;
        while i < ERASE_STALLS
            invariant
                i <= ERASE_STALLS,
                self.ec.trace() == t0 + erase_ops().take(5 + i),
                self.size == old(self).size,
                self.ec.inv(),
                self.project == old(self).project,
                self.version == old(self).version,
                self.a == old(self).a,
                self.b == old(self).b,
            decreases ERASE_STALLS - i,
        {
            self.ec.stall(ERASE_STALL_US);
            assert(self.ec.trace() =~= t0 + erase_ops().take(5 + i + 1));
            i = i + 1;
        }
        assert(erase_ops().take(5 + ERASE_STALLS) =~= erase_ops());
        Ok(())
    }
}

} // verus!
