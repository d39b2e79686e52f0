//! An embedded controller held in memory: a flash array that speaks the same
//! command protocol as the hardware, for running the update logic without a
//! device.
use vstd::prelude::*;
use crate::flasher::{
    block_count, erase_ops, image_write_ops, pad, read_each, read_head, read_heads, read_ops, write_each,
    write_head, write_heads, write_ops, BLOCK_SIZE, ERASE_STALLS, ERASE_STALL_US,
};
use crate::registers::{EcRegisters, Op};
use crate::update::{all_erased, flashed_ops, ImageMeta};

verus! {

/// What the controller does with the data bytes that follow a command.
#[derive(Clone, Copy, Debug, PartialEq, Eq, Structural)]
pub enum Mode {
    /// No transfer is set up.
    Idle,
    /// Data reads stream the flash from the cursor.
    Reading,
    /// Data writes program the flash from the cursor.
    Writing,
}

/// The state of an in-memory controller.
#[verifier::ext_equal]
pub struct EcModel {
    /// The flash array.
    pub flash: Seq<u8>,
    /// The bytes of a command received so far.
    pub pending: Seq<u8>,
    /// The transfer set up by the last command.
    pub mode: Mode,
    /// The flash offset of the next data byte.
    pub cursor: int,
    /// A cell that erasing does not clear, with the value it keeps.
    pub stuck: Option<(int, u8)>,
}

/// Bytes a command takes, counting its first byte.
pub open spec fn command_len(first: u8) -> nat {
    if first == 0x03 {
        2
    } else if first == 0x02 || first == 0x01 {
        5
    } else {
        1
    }
}

/// The flash once erased: every byte 0xFF but a stuck one, which keeps its value.
pub open spec fn erased(flash: Seq<u8>, stuck: Option<(int, u8)>) -> Seq<u8> {
    Seq::new(
        flash.len(),
        |p: int|
            match stuck {
                Some((q, v)) => if p == q {
                    v
                } else {
                    0xFFu8
                },
                None => 0xFFu8,
            },
    )
}

/// The effect of a complete command.
pub open spec fn run_command(s: EcModel, c: Seq<u8>) -> EcModel {
    if c[0] == 0x03 {
        EcModel { pending: seq![], mode: Mode::Reading, cursor: c[1] * BLOCK_SIZE, ..s }
    } else if c[0] == 0x02 {
        EcModel { pending: seq![], mode: Mode::Writing, cursor: c[2] * BLOCK_SIZE, ..s }
    } else if c[0] == 0x01 {
        EcModel { flash: erased(s.flash, s.stuck), pending: seq![], mode: Mode::Idle, ..s }
    } else {
        EcModel { pending: seq![], mode: Mode::Idle, ..s }
    }
}

/// The byte a data read returns.
pub open spec fn read_value(s: EcModel) -> u8 {
    if s.mode == Mode::Reading && 0 <= s.cursor < s.flash.len() {
        s.flash[s.cursor]
    } else {
        0xFF
    }
}

/// The effect of one transaction. A transfer stops at the end of the flash:
/// reads past it return 0xFF and writes past it are dropped. Parameters are
/// not modelled: a read of one returns zero.
pub open spec fn step(s: EcModel, op: Op) -> EcModel {
    match op {
        Op::Cmd(b) => {
            let c = s.pending.push(b);
            if c.len() >= command_len(c[0]) {
                run_command(s, c)
            } else {
                EcModel { pending: c, ..s }
            }
        },
        Op::Read(_) => if s.mode == Mode::Reading && 0 <= s.cursor < s.flash.len() {
            EcModel { cursor: s.cursor + 1, ..s }
        } else {
            s
        },
        Op::Write(b) => if s.mode == Mode::Writing && 0 <= s.cursor < s.flash.len() {
            EcModel { flash: s.flash.update(s.cursor, b), cursor: s.cursor + 1, ..s }
        } else {
            s
        },
        _ => s,
    }
}

/// The state after `ops`, from `s`.
pub open spec fn run(s: EcModel, ops: Seq<Op>) -> EcModel
    decreases ops.len(),
{
    if ops.len() == 0 {
        s
    } else {
        step(run(s, ops.drop_last()), ops.last())
    }
}

/// Every data read in `ops`, run from `s`, returned the byte the model gives.
pub open spec fn consistent(s: EcModel, ops: Seq<Op>) -> bool
    decreases ops.len(),
{
    if ops.len() == 0 {
        true
    } else {
        &&& consistent(s, ops.drop_last())
        &&& match ops.last() {
            Op::Read(v) => v == read_value(run(s, ops.drop_last())),
            _ => true,
        }
    }
}

/// A state from which commands are read afresh.
pub open spec fn at_rest(s: EcModel) -> bool {
    &&& s.pending.len() == 0
    &&& s.mode == Mode::Idle
}

/// An in-memory controller. It never fails a transaction.
pub struct MemoryEc {
    flash: Vec<u8>,
    project: String,
    version: String,
    pending: Vec<u8>,
    mode: Mode,
    cursor: usize,
    stuck: Option<(usize, u8)>,
    init: Ghost<EcModel>,
    trace: Ghost<Seq<Op>>,
}

impl MemoryEc {
    /// The controller's state as a model value.
    pub closed spec fn view(&self) -> EcModel {
        EcModel {
            flash: self.flash@,
            pending: self.pending@,
            mode: self.mode,
            cursor: self.cursor as int,
            stuck: match self.stuck {
                Some((q, v)) => Some((q as int, v)),
                None => None,
            },
        }
    }

    /// The state the controller started in.
    pub closed spec fn initial(&self) -> EcModel {
        self.init@
    }

    /// The invariant the controller keeps between transactions.
    pub closed spec fn valid(&self) -> bool {
        &&& self@ == run(self.init@, self.trace@)
        &&& consistent(self.init@, self.trace@)
        &&& self.pending@.len() < 5
        &&& self.pending@.len() > 0 ==> self.pending@.len() < command_len(self.pending@[0])
        &&& self.flash@.len() < usize::MAX
        &&& self.cursor <= 255 * BLOCK_SIZE || self.cursor <= self.flash@.len()
    }

    /// A controller at rest whose flash holds `flash`, which reports
    /// `project` and `version`, and whose byte at `stuck`'s offset, if any,
    /// keeps its value through every erase, as a worn cell would.
    pub fn new(flash: Vec<u8>, project: String, version: String, stuck: Option<(usize, u8)>) -> (r: MemoryEc)
        requires
            flash@.len() < usize::MAX,
        ensures
            r.initial() == r@,
            r@.flash == flash@,
            at_rest(r@),
            r@.cursor == 0,
            r@.stuck == match stuck {
                Some((q, v)) => Some((q as int, v)),
                None => None::<(int, u8)>,
            },
            r.trace() == Seq::<Op>::empty(),
            r.inv(),
    {
        let ghost m = EcModel {
            flash: flash@,
            pending: seq![],
            mode: Mode::Idle,
            cursor: 0,
            stuck: match stuck {
                Some((q, v)) => Some((q as int, v)),
                None => None,
            },
        };
        MemoryEc {
            flash,
            project,
            version,
            pending: Vec::new(),
            mode: Mode::Idle,
            cursor: 0,
            stuck,
            init: Ghost(m),
            trace: Ghost(Seq::empty()),
        }
    }

    /// The flash contents. The controller's state is always its initial
    /// state run through its trace, with every read on the way returning
    /// what the model gives.
    pub fn flash(&self) -> (r: &Vec<u8>)
        requires
            self.inv(),
        ensures
            r@ == self@.flash,
            self@ == run(self.initial(), self.trace()),
            consistent(self.initial(), self.trace()),
    {
        &self.flash
    }
}

proof fn lemma_run_push(s: EcModel, ops: Seq<Op>, op: Op)
    ensures
        run(s, ops.push(op)) == step(run(s, ops), op),
        consistent(s, ops.push(op)) == (consistent(s, ops) && match op {
            Op::Read(v) => v == read_value(run(s, ops)),
            _ => true,
        }),
{
    assert(ops.push(op).drop_last() =~= ops);
}

/// The byte a data read at `p` returns from `flash`: past the end, 0xFF.
pub open spec fn byte_at(flash: Seq<u8>, p: int) -> u8 {
    if 0 <= p < flash.len() {
        flash[p]
    } else {
        0xFF
    }
}

/// Where a transfer that started at `c` stands after `j` bytes.
pub open spec fn advance(c: int, len: int, j: int) -> int {
    if c >= len {
        c
    } else if c + j > len {
        len
    } else {
        c + j
    }
}

proof fn lemma_run_concat(s: EcModel, a: Seq<Op>, b: Seq<Op>)
    ensures
        run(s, a + b) == run(run(s, a), b),
        consistent(s, a + b) == (consistent(s, a) && consistent(run(s, a), b)),
    decreases b.len(),
{
    if b.len() == 0 {
        assert(a + b =~= a);
    } else {
        lemma_run_concat(s, a, b.drop_last());
        assert((a + b).drop_last() =~= a + b.drop_last());
    }
}

proof fn lemma_run_stalls(s: EcModel, m: nat)
    ensures
        run(s, Seq::new(m, |i: int| Op::Stall(ERASE_STALL_US))) == s,
        consistent(s, Seq::new(m, |i: int| Op::Stall(ERASE_STALL_US))),
    decreases m,
{
    if m > 0 {
        let ops = Seq::new(m, |i: int| Op::Stall(ERASE_STALL_US));
        assert(ops.drop_last() =~= Seq::new((m - 1) as nat, |i: int| Op::Stall(ERASE_STALL_US)));
        lemma_run_stalls(s, (m - 1) as nat);
    }
}

proof fn lemma_read_head(s: EcModel, k: int)
    requires
        s.pending.len() == 0,
        0 <= k < 256,
    ensures
        run(s, read_head(k)) == (EcModel {
            pending: seq![],
            mode: Mode::Reading,
            cursor: k * BLOCK_SIZE,
            ..s
        }),
        consistent(s, read_head(k)),
{
    let e = Seq::<Op>::empty();
    assert(read_head(k) =~= e.push(Op::Cmd(0x03)).push(Op::Cmd(k as u8)));
    lemma_run_push(s, e, Op::Cmd(0x03));
    lemma_run_push(s, e.push(Op::Cmd(0x03)), Op::Cmd(k as u8));
    assert(s.pending.push(0x03u8) =~= seq![0x03u8]);
    assert(seq![0x03u8].push(k as u8) =~= seq![0x03u8, k as u8]);
    assert(run(s, read_head(k)) =~= (EcModel {
        pending: seq![],
        mode: Mode::Reading,
        cursor: k * BLOCK_SIZE,
        ..s
    }));
}

proof fn lemma_write_head(s: EcModel, k: int)
    requires
        s.pending.len() == 0,
        0 <= k < 256,
    ensures
        run(s, write_head(k)) == (EcModel {
            pending: seq![],
            mode: Mode::Writing,
            cursor: k * BLOCK_SIZE,
            ..s
        }),
        consistent(s, write_head(k)),
{
    let e = Seq::<Op>::empty();
    let o1 = e.push(Op::Cmd(0x02));
    let o2 = o1.push(Op::Cmd(0x00));
    let o3 = o2.push(Op::Cmd(k as u8));
    let o4 = o3.push(Op::Cmd(0x00));
    let o5 = o4.push(Op::Cmd(0x00));
    assert(write_head(k) =~= o5);
    lemma_run_push(s, e, Op::Cmd(0x02));
    lemma_run_push(s, o1, Op::Cmd(0x00));
    lemma_run_push(s, o2, Op::Cmd(k as u8));
    lemma_run_push(s, o3, Op::Cmd(0x00));
    lemma_run_push(s, o4, Op::Cmd(0x00));
    assert(s.pending.push(0x02u8) =~= seq![0x02u8]);
    assert(seq![0x02u8].push(0x00u8) =~= seq![0x02u8, 0x00u8]);
    assert(seq![0x02u8, 0x00u8].push(k as u8) =~= seq![0x02u8, 0x00u8, k as u8]);
    assert(seq![0x02u8, 0x00u8, k as u8].push(0x00u8) =~= seq![0x02u8, 0x00u8, k as u8, 0x00u8]);
    assert(seq![0x02u8, 0x00u8, k as u8, 0x00u8].push(0x00u8) =~= seq![
        0x02u8,
        0x00u8,
        k as u8,
        0x00u8,
        0x00u8,
    ]);
    assert(run(s, write_head(k)) =~= (EcModel {
        pending: seq![],
        mode: Mode::Writing,
        cursor: k * BLOCK_SIZE,
        ..s
    }));
}

proof fn lemma_erase(s: EcModel)
    requires
        s.pending.len() == 0,
    ensures
        run(s, erase_ops()) == (EcModel {
            flash: erased(s.flash, s.stuck),
            pending: seq![],
            mode: Mode::Idle,
            ..s
        }),
        consistent(s, erase_ops()),
{
    let e = Seq::<Op>::empty();
    let o1 = e.push(Op::Cmd(0x01));
    let o2 = o1.push(Op::Cmd(0x00));
    let o3 = o2.push(Op::Cmd(0x00));
    let o4 = o3.push(Op::Cmd(0x00));
    let o5 = o4.push(Op::Cmd(0x00));
    let stalls = Seq::new(ERASE_STALLS as nat, |i: int| Op::Stall(ERASE_STALL_US));
    assert(erase_ops() =~= o5 + stalls);
    lemma_run_push(s, e, Op::Cmd(0x01));
    lemma_run_push(s, o1, Op::Cmd(0x00));
    lemma_run_push(s, o2, Op::Cmd(0x00));
    lemma_run_push(s, o3, Op::Cmd(0x00));
    lemma_run_push(s, o4, Op::Cmd(0x00));
    assert(s.pending.push(0x01u8) =~= seq![0x01u8]);
    assert(seq![0x01u8].push(0x00u8) =~= seq![0x01u8, 0x00u8]);
    assert(seq![0x01u8, 0x00u8].push(0x00u8) =~= seq![0x01u8, 0x00u8, 0x00u8]);
    assert(seq![0x01u8, 0x00u8, 0x00u8].push(0x00u8) =~= seq![0x01u8, 0x00u8, 0x00u8, 0x00u8]);
    assert(seq![0x01u8, 0x00u8, 0x00u8, 0x00u8].push(0x00u8) =~= seq![
        0x01u8,
        0x00u8,
        0x00u8,
        0x00u8,
        0x00u8,
    ]);
    let t = EcModel { flash: erased(s.flash, s.stuck), pending: seq![], mode: Mode::Idle, ..s };
    assert(run(s, o5) =~= t);
    lemma_run_concat(s, o5, stalls);
    lemma_run_stalls(t, ERASE_STALLS as nat);
}

proof fn lemma_read_bytes(s: EcModel, vals: Seq<u8>)
    requires
        s.mode == Mode::Reading,
        0 <= s.cursor,
    ensures
        run(s, vals.map_values(read_each())) == (EcModel {
            cursor: advance(s.cursor, s.flash.len() as int, vals.len() as int),
            ..s
        }),
        consistent(s, vals.map_values(read_each())) ==> forall|j: int|
            0 <= j < vals.len() ==> vals[j] == byte_at(s.flash, s.cursor + j),
    decreases vals.len(),
{
    if vals.len() > 0 {
        let m = vals.len() - 1;
        let front = vals.drop_last();
        assert(vals.map_values(read_each()).drop_last() =~= front.map_values(read_each()));
        lemma_read_bytes(s, front);
        assert(vals.map_values(read_each()) =~= front.map_values(read_each()).push(
            Op::Read(vals[m]),
        ));
        lemma_run_push(s, front.map_values(read_each()), Op::Read(vals[m]));
        let t = run(s, front.map_values(read_each()));
        assert(run(s, vals.map_values(read_each())) =~= (EcModel {
            cursor: advance(s.cursor, s.flash.len() as int, vals.len() as int),
            ..s
        }));
        if consistent(s, vals.map_values(read_each())) {
            assert forall|j: int| 0 <= j < vals.len() implies vals[j] == byte_at(
                s.flash,
                s.cursor + j,
            ) by {
                if j < m {
                    assert(vals[j] == front[j]);
                }
            }
        }
    } else {
        assert(vals.map_values(read_each()) =~= Seq::<Op>::empty());
    }
}

proof fn lemma_write_bytes(s: EcModel, bytes: Seq<u8>)
    requires
        s.mode == Mode::Writing,
        0 <= s.cursor,
    ensures
        run(s, bytes.map_values(write_each())) == (EcModel {
            flash: Seq::new(
                s.flash.len(),
                |p: int|
                    if s.cursor <= p < s.cursor + bytes.len() {
                        bytes[p - s.cursor]
                    } else {
                        s.flash[p]
                    },
            ),
            cursor: advance(s.cursor, s.flash.len() as int, bytes.len() as int),
            ..s
        }),
        consistent(s, bytes.map_values(write_each())),
    decreases bytes.len(),
{
    let goal = EcModel {
        flash: Seq::new(
            s.flash.len(),
            |p: int|
                if s.cursor <= p < s.cursor + bytes.len() {
                    bytes[p - s.cursor]
                } else {
                    s.flash[p]
                },
        ),
        cursor: advance(s.cursor, s.flash.len() as int, bytes.len() as int),
        ..s
    };
    if bytes.len() > 0 {
        let m = bytes.len() - 1;
        let front = bytes.drop_last();
        lemma_write_bytes(s, front);
        assert(bytes.map_values(write_each()) =~= front.map_values(write_each()).push(
            Op::Write(bytes[m]),
        ));
        lemma_run_push(s, front.map_values(write_each()), Op::Write(bytes[m]));
        assert(run(s, bytes.map_values(write_each())) =~= goal);
    } else {
        assert(bytes.map_values(write_each()) =~= Seq::<Op>::empty());
        assert(run(s, bytes.map_values(write_each())) =~= goal);
    }
}

proof fn lemma_read_all(s: EcModel, vals: Seq<u8>, n: nat)
    requires
        s.pending.len() == 0,
        n <= 256,
        vals.len() >= n * BLOCK_SIZE,
    ensures
        run(s, read_ops(vals, n)).flash == s.flash,
        run(s, read_ops(vals, n)).pending.len() == 0,
        run(s, read_ops(vals, n)).stuck == s.stuck,
        consistent(s, read_ops(vals, n)) ==> forall|p: int|
            0 <= p < n * BLOCK_SIZE ==> vals[p] == byte_at(s.flash, p),
    decreases n,
{
    if n > 0 {
        let k = (n - 1) as nat;
        let a = read_ops(vals, k);
        let h = read_head(k as int);
        let sub = vals.subrange(k * BLOCK_SIZE, n * BLOCK_SIZE);
        let m = sub.map_values(read_each());
        assert(read_ops(vals, n) == a + h + m);
        lemma_run_concat(s, a + h, m);
        lemma_run_concat(s, a, h);
        lemma_read_all(s, vals, k);
        lemma_read_head(run(s, a), k as int);
        lemma_read_bytes(run(s, a + h), sub);
        if consistent(s, read_ops(vals, n)) {
            assert forall|p: int| 0 <= p < n * BLOCK_SIZE implies vals[p] == byte_at(s.flash, p) by {
                if p >= k * BLOCK_SIZE {
                    assert(vals[p] == sub[p - k * BLOCK_SIZE]);
                }
            }
        }
    }
}

proof fn lemma_write_all(s: EcModel, bytes: Seq<u8>, n: nat)
    requires
        s.pending.len() == 0,
        n <= 256,
        bytes.len() >= n * BLOCK_SIZE,
    ensures
        run(s, write_ops(bytes, n)).flash == Seq::new(
            s.flash.len(),
            |p: int|
                if p < n * BLOCK_SIZE {
                    bytes[p]
                } else {
                    s.flash[p]
                },
        ),
        run(s, write_ops(bytes, n)).pending.len() == 0,
        run(s, write_ops(bytes, n)).stuck == s.stuck,
        consistent(s, write_ops(bytes, n)),
    decreases n,
{
    if n > 0 {
        let k = (n - 1) as nat;
        let a = write_ops(bytes, k);
        let h = write_head(k as int);
        let sub = bytes.subrange(k * BLOCK_SIZE, n * BLOCK_SIZE);
        let m = sub.map_values(write_each());
        assert(write_ops(bytes, n) == a + h + m);
        lemma_run_concat(s, a + h, m);
        lemma_run_concat(s, a, h);
        lemma_write_all(s, bytes, k);
        lemma_write_head(run(s, a), k as int);
        lemma_write_bytes(run(s, a + h), sub);
        assert(run(s, write_ops(bytes, n)).flash =~= Seq::new(
            s.flash.len(),
            |p: int|
                if p < n * BLOCK_SIZE {
                    bytes[p]
                } else {
                    s.flash[p]
                },
        ));
    } else {
        assert(run(s, write_ops(bytes, n)).flash =~= Seq::new(
            s.flash.len(),
            |p: int|
                if p < n * BLOCK_SIZE {
                    bytes[p]
                } else {
                    s.flash[p]
                },
        ));
    }
}

/// Writing an image and then reading the whole flash back returns the
/// image, padded with 0xFF to the flash size.
pub proof fn lemma_write_read_round_trip(s: EcModel, data: Seq<u8>, size: usize, vals: Seq<u8>)
    requires
        s.pending.len() == 0,
        block_count(size) <= 256,
        s.flash.len() == block_count(size) * BLOCK_SIZE,
        vals.len() == block_count(size) * BLOCK_SIZE,
        consistent(s, image_write_ops(data, size) + read_ops(vals, block_count(size))),
    ensures
        vals == pad(data, block_count(size) * BLOCK_SIZE),
{
    let n = block_count(size);
    let bytes = pad(data, n * BLOCK_SIZE);
    lemma_run_concat(s, write_ops(bytes, n), read_ops(vals, n));
    lemma_write_all(s, bytes, n);
    let t = run(s, write_ops(bytes, n));
    assert(t.flash =~= bytes);
    lemma_read_all(t, vals, n);
    assert(vals =~= bytes);
}

/// Right after an erase, every byte read back is 0xFF.
pub proof fn lemma_erase_reads_erased(s: EcModel, vals: Seq<u8>, n: nat)
    requires
        s.pending.len() == 0,
        s.stuck is None,
        n <= 256,
        vals.len() == n * BLOCK_SIZE,
        consistent(s, erase_ops() + read_ops(vals, n)),
    ensures
        forall|p: int| 0 <= p < vals.len() ==> vals[p] == 0xFF,
{
    lemma_run_concat(s, erase_ops(), read_ops(vals, n));
    lemma_erase(s);
    lemma_read_all(run(s, erase_ops()), vals, n);
}

/// Erasing twice in a row leaves the flash as one erase does.
pub proof fn lemma_erase_twice(s: EcModel)
    requires
        s.pending.len() == 0,
    ensures
        run(s, erase_ops() + erase_ops()).flash == run(s, erase_ops()).flash,
{
    lemma_run_concat(s, erase_ops(), erase_ops());
    lemma_erase(s);
    lemma_erase(run(s, erase_ops()));
    assert(erased(erased(s.flash, s.stuck), s.stuck) =~= erased(s.flash, s.stuck));
}

/// On a controller whose flash is as large as the session covers, the
/// transactions of a completed update leave the image, padded with 0xFF, in
/// the flash, and the final read back returns exactly that. Without a stuck
/// cell, the read after the erase returned nothing but 0xFF.
pub proof fn lemma_update_leaves_image(
    s: EcModel,
    size: usize,
    v1: Seq<u8>,
    v2: Seq<u8>,
    data: Seq<u8>,
    v3: Seq<u8>,
)
    requires
        s.pending.len() == 0,
        block_count(size) <= 256,
        s.flash.len() == block_count(size) * BLOCK_SIZE,
        v1.len() == block_count(size) * BLOCK_SIZE,
        v2.len() == block_count(size) * BLOCK_SIZE,
        v3.len() == block_count(size) * BLOCK_SIZE,
        consistent(s, flashed_ops(size, v1, v2, data, v3)),
    ensures
        run(s, flashed_ops(size, v1, v2, data, v3)).flash == pad(data, block_count(size) * BLOCK_SIZE),
        v3 == pad(data, block_count(size) * BLOCK_SIZE),
        s.stuck is None ==> all_erased(v2),
{
    let n = block_count(size);
    let r1 = read_ops(v1, n);
    let er = erase_ops();
    let r2 = read_ops(v2, n);
    let w = image_write_ops(data, size);
    let r3 = read_ops(v3, n);
    assert(flashed_ops(size, v1, v2, data, v3) == r1 + er + r2 + w + r3);
    lemma_run_concat(s, r1 + er + r2, w + r3);
    assert(r1 + er + r2 + w + r3 =~= (r1 + er + r2) + (w + r3));
    lemma_run_concat(s, r1 + er, r2);
    lemma_run_concat(s, r1, er);
    lemma_read_all(s, v1, n);
    let t1 = run(s, r1);
    lemma_erase(t1);
    let t2 = run(t1, er);
    lemma_read_all(t2, v2, n);
    if s.stuck is None {
        assert forall|p: int| 0 <= p < v2.len() implies v2[p] == 0xFF by {
            assert(byte_at(t2.flash, p) == 0xFF);
        }
    }
    let t3 = run(t2, r2);
    assert(run(s, r1 + er + r2) == t3);
    lemma_write_read_round_trip(t3, data, size, v3);
    let bytes = pad(data, n * BLOCK_SIZE);
    lemma_write_all(t3, bytes, n);
    lemma_run_concat(t3, w, r3);
    let t4 = run(t3, w);
    assert(t4.flash =~= bytes);
    lemma_read_all(t4, v3, n);
}

impl EcRegisters for MemoryEc {
    closed spec fn trace(&self) -> Seq<Op> {
        self.trace@
    }

    closed spec fn reported(&self) -> ImageMeta {
        ImageMeta {
            project: self.project@,
            version: self.version@,
            size: self.flash@.len() as int,
        }
    }

    closed spec fn inv(&self) -> bool {
        self.valid()
    }

    fn cmd(&mut self, data: u8) -> (r: Result<(), ()>) {
        proof {
            lemma_run_push(self.init@, self.trace@, Op::Cmd(data));
        }
        self.pending.push(data);
        let first = self.pending[0];
        let need: usize = if first == 0x03 {
            2
        } else if first == 0x02 || first == 0x01 {
            5
        } else {
            1
        };
        if self.pending.len() >= need {
            if first == 0x03 {
                self.mode = Mode::Reading;
                self.cursor = self.pending[1] as usize * BLOCK_SIZE;
            } else if first == 0x02 {
                self.mode = Mode::Writing;
                self.cursor = self.pending[2] as usize * BLOCK_SIZE;
            } else if first == 0x01 {
                let ghost before = self.flash@;
                let ghost pending = self.pending@;
                let ghost cursor = self.cursor;
                let ghost stuck = self.stuck;
                let ghost init = self.init@;
                let ghost trace = self.trace@;
                let mut i: usize = 0;
                while i < self.flash.len()
                    invariant
                        self.project@ == old(self).project@,
                        self.version@ == old(self).version@,
                        self.pending@ == pending,
                        self.cursor == cursor,
                        self.stuck == stuck,
                        self.init@ == init,
                        self.trace@ == trace,
                        self.flash@.len() == before.len(),
                        i <= before.len(),
                        forall|p: int| 0 <= p < i ==> self.flash@[p] == erased(before, match self.stuck {
                            Some((q, v)) => Some((q as int, v)),
                            None => None,
                        })[p],
                    decreases before.len() - i,
                {
                    let v: u8 = match self.stuck {
                        Some((q, w)) => if q == i {
                            w
                        } else {
                            0xFF
                        },
                        None => 0xFF,
                    };
                    self.flash.set(i, v);
                    i = i + 1;
                }
                assert(self.flash@ =~= erased(before, self@.stuck));
                self.mode = Mode::Idle;
            } else {
                self.mode = Mode::Idle;
            }
            self.pending = Vec::new();
        }
        proof {
            self.trace@ = self.trace@.push(Op::Cmd(data));
            assert(self@ =~= run(self.init@, self.trace@));
        }
        Ok(())
    }

    fn read(&mut self) -> (r: Result<u8, ()>) {
        let v: u8 = if self.mode == Mode::Reading && self.cursor < self.flash.len() {
            self.flash[self.cursor]
        } else {
            0xFF
        };
        proof {
            lemma_run_push(self.init@, self.trace@, Op::Read(v));
        }
        if self.mode == Mode::Reading && self.cursor < self.flash.len() {
            self.cursor = self.cursor + 1;
        }
        proof {
            self.trace@ = self.trace@.push(Op::Read(v));
        }
        Ok(v)
    }

    fn write(&mut self, data: u8) -> (r: Result<(), ()>) {
        proof {
            lemma_run_push(self.init@, self.trace@, Op::Write(data));
        }
        if self.mode == Mode::Writing && self.cursor < self.flash.len() {
            self.flash.set(self.cursor, data);
            self.cursor = self.cursor + 1;
        }
        proof {
            self.trace@ = self.trace@.push(Op::Write(data));
        }
        Ok(())
    }

    fn get_param(&mut self, param: u8) -> (r: Result<u8, ()>) {
        proof {
            lemma_run_push(self.init@, self.trace@, Op::GetParam(param, 0));
            self.trace@ = self.trace@.push(Op::GetParam(param, 0));
        }
        Ok(0)
    }

    fn set_param(&mut self, param: u8, data: u8) -> (r: Result<(), ()>) {
        proof {
            lemma_run_push(self.init@, self.trace@, Op::SetParam(param, data));
            self.trace@ = self.trace@.push(Op::SetParam(param, data));
        }
        Ok(())
    }

    fn stall(&mut self, us: u32) {
        proof {
            lemma_run_push(self.init@, self.trace@, Op::Stall(us));
            self.trace@ = self.trace@.push(Op::Stall(us));
        }
    }

    fn project(&mut self) -> (r: String) {
        self.project.clone()
    }

    fn version(&mut self) -> (r: String) {
        self.version.clone()
    }

    fn size(&mut self) -> (r: usize) {
        self.flash.len()
    }
}

} // verus!
