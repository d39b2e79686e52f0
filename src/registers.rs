//! The register-level interface to an embedded controller.
//!
//! Every primitive transaction is recorded in a ghost trace, so that the
//! protocol built on top of it can state exactly which transactions it
//! issues, in which order, and which values came back.
use vstd::prelude::*;
use crate::update::ImageMeta;

verus! {

/// One register transaction, as it ended.
pub enum Op {
    /// A command byte written to the controller.
    Cmd(u8),
    /// A data byte read from the controller.
    Read(u8),
    /// A data byte written to the controller.
    Write(u8),
    /// An indexed parameter read: address, value returned.
    GetParam(u8, u8),
    /// An indexed parameter write: address, value.
    SetParam(u8, u8),
    /// A blind wait of the given number of microseconds.
    Stall(u32),
    /// A transaction that failed.
    Failed,
}

/// Primitive operations on one EC instance.
///
/// `trace` is the sequence of transactions issued on it: each one that
/// completes is recorded with its values, each one that fails as `Failed`.
/// `reported` is the metadata the controller last reported.
pub trait EcRegisters {
    spec fn trace(&self) -> Seq<Op>;

    spec fn reported(&self) -> ImageMeta;

    /// What the implementation keeps true between transactions.
    spec fn inv(&self) -> bool;

    /// Issues a command byte.
    fn cmd(&mut self, data: u8) -> (r: Result<(), ()>)
        requires
            old(self).inv(),
        ensures
            final(self).inv(),
            final(self).reported() == old(self).reported(),
            r is Ok ==> final(self).trace() == old(self).trace().push(Op::Cmd(data)),
            r is Err ==> final(self).trace() == old(self).trace().push(Op::Failed),
    ;

    /// Reads a data byte.
    fn read(&mut self) -> (r: Result<u8, ()>)
        requires
            old(self).inv(),
        ensures
            final(self).inv(),
            final(self).reported() == old(self).reported(),
            match r {
                Ok(v) => final(self).trace() == old(self).trace().push(Op::Read(v)),
                Err(_) => final(self).trace() == old(self).trace().push(Op::Failed),
            },
    ;

    /// Writes a data byte.
    fn write(&mut self, data: u8) -> (r: Result<(), ()>)
        requires
            old(self).inv(),
        ensures
            final(self).inv(),
            final(self).reported() == old(self).reported(),
            r is Ok ==> final(self).trace() == old(self).trace().push(Op::Write(data)),
            r is Err ==> final(self).trace() == old(self).trace().push(Op::Failed),
    ;

    /// Reads the parameter at `param`.
    fn get_param(&mut self, param: u8) -> (r: Result<u8, ()>)
        requires
            old(self).inv(),
        ensures
            final(self).inv(),
            final(self).reported() == old(self).reported(),
            match r {
                Ok(v) => final(self).trace() == old(self).trace().push(Op::GetParam(param, v)),
                Err(_) => final(self).trace() == old(self).trace().push(Op::Failed),
            },
    ;

    /// Sets the parameter at `param` to `data`.
    fn set_param(&mut self, param: u8, data: u8) -> (r: Result<(), ()>)
        requires
            old(self).inv(),
        ensures
            final(self).inv(),
            final(self).reported() == old(self).reported(),
            r is Ok ==> final(self).trace() == old(self).trace().push(Op::SetParam(param, data)),
            r is Err ==> final(self).trace() == old(self).trace().push(Op::Failed),
    ;

    /// Waits `us` microseconds without touching the controller.
    fn stall(&mut self, us: u32)
        requires
            old(self).inv(),
        ensures
            final(self).inv(),
            final(self).reported() == old(self).reported(),
            final(self).trace() == old(self).trace().push(Op::Stall(us)),
    ;

    /// The project identifier the controller reports.
    fn project(&mut self) -> (r: String)
        requires
            old(self).inv(),
        ensures
            final(self).inv(),
            final(self).trace() == old(self).trace(),
            final(self).reported() == (ImageMeta { project: r@, ..old(self).reported() }),
    ;

    /// The firmware version the controller reports.
    fn version(&mut self) -> (r: String)
        requires
            old(self).inv(),
        ensures
            final(self).inv(),
            final(self).trace() == old(self).trace(),
            final(self).reported() == (ImageMeta { version: r@, ..old(self).reported() }),
    ;

    /// The flash size, in bytes, the controller reports.
    fn size(&mut self) -> (r: usize)
        requires
            old(self).inv(),
        ensures
            final(self).inv(),
            final(self).trace() == old(self).trace(),
            final(self).reported() == (ImageMeta { size: r as int, ..old(self).reported() }),
    ;
}

/// The primitive operations as a device offers them, with nothing recorded.
pub trait RawRegisters {
    fn cmd(&mut self, data: u8) -> Result<(), ()>;

    fn read(&mut self) -> Result<u8, ()>;

    fn write(&mut self, data: u8) -> Result<(), ()>;

    fn get_param(&mut self, param: u8) -> Result<u8, ()>;

    fn set_param(&mut self, param: u8, data: u8) -> Result<(), ()>;

    fn stall(&mut self, us: u32);

    fn project(&mut self) -> String;

    fn version(&mut self) -> String;

    fn size(&mut self) -> usize;
}

/// A device whose transactions are recorded as they complete.
pub struct Traced<T: RawRegisters> {
    raw: T,
    trace: Ghost<Seq<Op>>,
    reported: Ghost<ImageMeta>,
}

impl<T: RawRegisters> Traced<T> {
    /// Starts recording on `raw`.
    pub fn new(raw: T) -> (r: Traced<T>)
        ensures
            r.trace() == Seq::<Op>::empty(),
            r.inv(),
    {
        Traced {
            raw,
            trace: Ghost(Seq::empty()),
            reported: Ghost(ImageMeta { project: Seq::empty(), version: Seq::empty(), size: 0 }),
        }
    }

    /// Stops recording and hands the device back.
    pub fn into_inner(self) -> T {
        self.raw
    }
}

impl<T: RawRegisters> EcRegisters for Traced<T> {
    closed spec fn trace(&self) -> Seq<Op> {
        self.trace@
    }

    closed spec fn reported(&self) -> ImageMeta {
        self.reported@
    }

    closed spec fn inv(&self) -> bool {
        true
    }

    fn cmd(&mut self, data: u8) -> (r: Result<(), ()>) {
        let r = self.raw.cmd(data);
        if r.is_ok() {
            self.trace = Ghost(self.trace@.push(Op::Cmd(data)));
        } else {
            self.trace = Ghost(self.trace@.push(Op::Failed));
        }
        r
    }

    fn read(&mut self) -> (r: Result<u8, ()>) {
        let r = self.raw.read();
        match r {
            Ok(v) => {
                self.trace = Ghost(self.trace@.push(Op::Read(v)));
            },
            Err(()) => {
                self.trace = Ghost(self.trace@.push(Op::Failed));
            },
        }
        r
    }

    fn write(&mut self, data: u8) -> (r: Result<(), ()>) {
        let r = self.raw.write(data);
        if r.is_ok() {
            self.trace = Ghost(self.trace@.push(Op::Write(data)));
        } else {
            self.trace = Ghost(self.trace@.push(Op::Failed));
        }
        r
    }

    fn get_param(&mut self, param: u8) -> (r: Result<u8, ()>) {
        let r = self.raw.get_param(param);
        match r {
            Ok(v) => {
                self.trace = Ghost(self.trace@.push(Op::GetParam(param, v)));
            },
            Err(()) => {
                self.trace = Ghost(self.trace@.push(Op::Failed));
            },
        }
        r
    }

    fn set_param(&mut self, param: u8, data: u8) -> (r: Result<(), ()>) {
        let r = self.raw.set_param(param, data);
        if r.is_ok() {
            self.trace = Ghost(self.trace@.push(Op::SetParam(param, data)));
        } else {
            self.trace = Ghost(self.trace@.push(Op::Failed));
        }
        r
    }

    fn stall(&mut self, us: u32) {
        self.raw.stall(us);
        self.trace = Ghost(self.trace@.push(Op::Stall(us)));
    }

    fn project(&mut self) -> (r: String) {
        let r = self.raw.project();
        self.reported = Ghost(ImageMeta { project: r@, ..self.reported@ });
        r
    }

    fn version(&mut self) -> (r: String) {
        let r = self.raw.version();
        self.reported = Ghost(ImageMeta { version: r@, ..self.reported@ });
        r
    }

    fn size(&mut self) -> (r: usize) {
        let r = self.raw.size();
        self.reported = Ghost(ImageMeta { size: r as int, ..self.reported@ });
        r
    }
}

} // verus!
