//! The update policy: whether an update may run on a controller, and the
//! checks that each stage of it must pass.
use vstd::prelude::*;
use crate::flasher::{
    block_count, erase_ops, erase_stopped, fill, image_write_ops, profile, read_ops, read_stopped,
    unlock_ops, write_stopped, EcFlasher, BLOCK_SIZE,
};
use crate::registers::{EcRegisters, Op};
use crate::image::{file_meta, image_info};

verus! {

/// The metadata of a firmware image, or of the firmware a controller runs.
pub struct ImageInfo {
    /// The hardware model family the firmware targets.
    pub project: String,
    /// The version string; compared by equality only.
    pub version: String,
    /// The size in bytes.
    pub size: usize,
}

/// Image metadata as values: what the checks compare.
pub struct ImageMeta {
    pub project: Seq<char>,
    pub version: Seq<char>,
    pub size: int,
}

impl View for ImageInfo {
    type V = ImageMeta;

    open spec fn view(&self) -> ImageMeta {
        ImageMeta { project: self.project@, version: self.version@, size: self.size as int }
    }
}

impl ImageInfo {
    pub fn new(project: String, version: String, size: usize) -> (r: ImageInfo)
        ensures
            r@ == (ImageMeta { project: project@, version: version@, size: size as int }),
    {
        ImageInfo { project, version, size }
    }
}

/// Why an update did not complete.
#[derive(Clone, Copy, Debug, PartialEq, Eq, Structural)]
pub enum UpdateError {
    /// A register transaction failed.
    HardwareError,
    /// No image file was found.
    ImageNotFound,
    /// The image file could not be loaded.
    ImageLoadError,
    /// Image and controller disagree on the size.
    SizeMismatch,
    /// Image and controller disagree on the project.
    ProjectMismatch,
    /// The version read back from the controller is not the one expected.
    VersionMismatch,
    /// The controller could not be unlocked for flashing.
    UnlockFailure,
    /// After the erase, the byte at `offset` read back as `value`, not 0xFF.
    EraseVerifyFailure { offset: usize, value: u8 },
    /// The image read back after the write is not the one written.
    WriteVerifyFailure,
}

/// What the guard checks decided, when they let the update through.
#[derive(Clone, Copy, Debug, PartialEq, Eq, Structural)]
pub enum GuardDecision {
    /// The controller is on another version of the same firmware: flash it.
    Proceed,
    /// The controller already runs this version: nothing to do.
    UpToDate,
}

/// The guard checks, first failing one first: size, project, then version.
pub open spec fn guard_spec(device: ImageMeta, image: ImageMeta) -> Result<GuardDecision, UpdateError> {
    if image.size != device.size {
        Err(UpdateError::SizeMismatch)
    } else if image.project != device.project {
        Err(UpdateError::ProjectMismatch)
    } else if image.version == device.version {
        Ok(GuardDecision::UpToDate)
    } else {
        Ok(GuardDecision::Proceed)
    }
}

/// Decides whether `image` may be flashed onto the controller that reports
/// `device`.
pub fn guard_check(device: &ImageInfo, image: &ImageInfo) -> (r: Result<GuardDecision, UpdateError>)
    ensures
        r == guard_spec(device@, image@),
{
    if image.size != device.size {
        Err(UpdateError::SizeMismatch)
    } else if image.project != device.project {
        Err(UpdateError::ProjectMismatch)
    } else if image.version == device.version {
        Ok(GuardDecision::UpToDate)
    } else {
        Ok(GuardDecision::Proceed)
    }
}

/// An image whose size differs from the controller's is refused with
/// `SizeMismatch` before anything else, so no session is ever opened for it.
pub proof fn lemma_size_mismatch_aborts(device: ImageMeta, image: ImageMeta)
    requires
        image.size != device.size,
    ensures
        guard_spec(device, image) == Err::<GuardDecision, UpdateError>(UpdateError::SizeMismatch),
{
}

/// An image of the right size whose project differs from the controller's
/// is refused with `ProjectMismatch`, so it never reaches the erase.
pub proof fn lemma_project_mismatch_aborts(device: ImageMeta, image: ImageMeta)
    requires
        image.size == device.size,
        image.project != device.project,
    ensures
        guard_spec(device, image) == Err::<GuardDecision, UpdateError>(UpdateError::ProjectMismatch),
{
}

/// An image whose version is the controller's never leads to flashing; when
/// size and project agree as well, the controller is reported up to date.
pub proof fn lemma_same_version_is_no_op(device: ImageMeta, image: ImageMeta)
    requires
        image.version == device.version,
    ensures
        guard_spec(device, image) != Ok::<GuardDecision, UpdateError>(GuardDecision::Proceed),
        image.size == device.size && image.project == device.project ==> guard_spec(device, image)
            == Ok::<GuardDecision, UpdateError>(GuardDecision::UpToDate),
{
}

/// The check on the image read back before the erase: it must match both
/// the unlock snapshot and the candidate in size and project, equal the
/// snapshot's version and differ from the candidate's.
pub open spec fn current_spec(session: ImageMeta, current: ImageMeta, image: ImageMeta) -> Result<
    (),
    UpdateError,
> {
    if current.size != session.size || current.size != image.size {
        Err(UpdateError::SizeMismatch)
    } else if current.project != session.project || current.project != image.project {
        Err(UpdateError::ProjectMismatch)
    } else if current.version != session.version || current.version == image.version {
        Err(UpdateError::VersionMismatch)
    } else {
        Ok(())
    }
}

/// Checks the image read back before the erase.
pub fn check_current(session: &ImageInfo, current: &ImageInfo, image: &ImageInfo) -> (r: Result<
    (),
    UpdateError,
>)
    ensures
        r == current_spec(session@, current@, image@),
{
    if current.size != session.size || current.size != image.size {
        Err(UpdateError::SizeMismatch)
    } else if current.project != session.project || current.project != image.project {
        Err(UpdateError::ProjectMismatch)
    } else if current.version != session.version || current.version == image.version {
        Err(UpdateError::VersionMismatch)
    } else {
        Ok(())
    }
}

/// The check on the image read back after the write: size and project as
/// before; the version is the candidate's, and differs from both the
/// snapshot's and the one read before the erase.
pub open spec fn written_spec(
    session: ImageMeta,
    current: ImageMeta,
    image: ImageMeta,
    written: ImageMeta,
) -> bool {
    &&& written.size == session.size
    &&& written.size == current.size
    &&& written.size == image.size
    &&& written.project == session.project
    &&& written.project == current.project
    &&& written.project == image.project
    &&& written.version != session.version
    &&& written.version != current.version
    &&& written.version == image.version
}

/// Checks the image read back after the write.
pub fn check_written(
    session: &ImageInfo,
    current: &ImageInfo,
    image: &ImageInfo,
    written: &ImageInfo,
) -> (r: Result<(), UpdateError>)
    ensures
        r is Ok <==> written_spec(session@, current@, image@, written@),
        r is Err ==> r == Err::<(), UpdateError>(UpdateError::WriteVerifyFailure),
{
    if written.size != session.size || written.size != current.size || written.size
        != image.size {
        Err(UpdateError::WriteVerifyFailure)
    } else if written.project != session.project || written.project != current.project
        || written.project != image.project {
        Err(UpdateError::WriteVerifyFailure)
    } else if written.version == session.version || written.version == current.version
        || written.version != image.version {
        Err(UpdateError::WriteVerifyFailure)
    } else {
        Ok(())
    }
}

/// Every byte of `data` holds the erased value 0xFF.
pub open spec fn all_erased(data: Seq<u8>) -> bool {
    forall|i: int| 0 <= i < data.len() ==> data[i] == 0xFF
}

/// Checks that `data` is fully erased; otherwise reports the first byte
/// that is not 0xFF, with its offset.
pub fn check_erased(data: &[u8]) -> (r: Result<(), UpdateError>)
    ensures
        r is Ok <==> all_erased(data@),
        r is Err ==> exists|offset: usize, value: u8|
            {
                &&& r == Err::<(), UpdateError>(UpdateError::EraseVerifyFailure { offset, value })
                &&& offset < data@.len()
                &&& data@[offset as int] == value
                &&& value != 0xFF
                &&& all_erased(data@.take(offset as int))
            },
{
    let mut i: usize = 0;
    while i < data.len()
        invariant
            i <= data@.len(),
            all_erased(data@.take(i as int)),
        decreases data@.len() - i,
    {
        if data[i] != 0xFF {
            return Err(UpdateError::EraseVerifyFailure { offset: i, value: data[i] });
        }
        assert(data@.take(i + 1) =~= data@.take(i as int).push(data@[i as int]));
        i = i + 1;
    }
    assert(data@.take(i as int) =~= data@);
    Ok(())
}

/// What a read-back buffer of `size` zeroed bytes holds once `vals` has been
/// read into it.
pub open spec fn readback(size: usize, vals: Seq<u8>) -> Seq<u8> {
    fill(Seq::new(size as nat, |p: int| 0u8), vals)
}

/// The transactions of an update that got as far as reading back the erased
/// flash: the read of the current image (`v1`), the erase, and the read of
/// the erased flash (`v2`).
pub open spec fn erased_ops(size: usize, v1: Seq<u8>, v2: Seq<u8>) -> Seq<Op> {
    read_ops(v1, block_count(size)) + erase_ops() + read_ops(v2, block_count(size))
}

/// The transactions of an update that ran all its stages: those of
/// `erased_ops`, then the write of `data` and the final read back (`v3`).
pub open spec fn flashed_ops(size: usize, v1: Seq<u8>, v2: Seq<u8>, data: Seq<u8>, v3: Seq<u8>) -> Seq<
    Op,
> {
    erased_ops(size, v1, v2) + image_write_ops(data, size) + read_ops(v3, block_count(size))
}

/// `ops` is an update over a flash of `size` bytes that stopped at a failed
/// transaction, in one of its five register stages. The erase runs only
/// after the read-back of the current image (`v1`) passed its check, and the
/// write only after the read-back of the erased flash (`v2`) was all 0xFF.
pub open spec fn update_stopped(
    ops: Seq<Op>,
    size: usize,
    session: ImageMeta,
    image: ImageMeta,
    data: Seq<u8>,
) -> bool {
    let n = block_count(size);
    ||| exists|got: Seq<u8>| #[trigger] read_stopped(ops, n, got)
    ||| exists|v1: Seq<u8>, e: Seq<Op>|
        {
            &&& v1.len() == n * BLOCK_SIZE
            &&& current_spec(session, file_meta(readback(size, v1)), image) == Ok::<(), UpdateError>(
                (),
            )
            &&& ops == #[trigger] read_ops(v1, n) + e
            &&& #[trigger] erase_stopped(e)
        }
    ||| exists|v1: Seq<u8>, e: Seq<Op>, got: Seq<u8>|
        {
            &&& v1.len() == n * BLOCK_SIZE
            &&& current_spec(session, file_meta(readback(size, v1)), image) == Ok::<(), UpdateError>(
                (),
            )
            &&& ops == #[trigger] read_ops(v1, n) + erase_ops() + e
            &&& #[trigger] read_stopped(e, n, got)
        }
    ||| exists|v1: Seq<u8>, v2: Seq<u8>, e: Seq<Op>|
        {
            &&& v1.len() == n * BLOCK_SIZE
            &&& v2.len() == n * BLOCK_SIZE
            &&& current_spec(session, file_meta(readback(size, v1)), image) == Ok::<(), UpdateError>(
                (),
            )
            &&& all_erased(readback(size, v2))
            &&& ops == #[trigger] erased_ops(size, v1, v2) + e
            &&& #[trigger] write_stopped(e, data, size)
        }
    ||| exists|v1: Seq<u8>, v2: Seq<u8>, e: Seq<Op>, got: Seq<u8>|
        {
            &&& v1.len() == n * BLOCK_SIZE
            &&& v2.len() == n * BLOCK_SIZE
            &&& current_spec(session, file_meta(readback(size, v1)), image) == Ok::<(), UpdateError>(
                (),
            )
            &&& all_erased(readback(size, v2))
            &&& ops == #[trigger] erased_ops(size, v1, v2) + image_write_ops(data, size) + e
            &&& #[trigger] read_stopped(e, n, got)
        }
}

fn zeroed(size: usize) -> (r: Vec<u8>)
    ensures
        r@ == Seq::new(size as nat, |p: int| 0u8),
{
    let mut v: Vec<u8> = Vec::new();
    while v.len() < size
        invariant
            v.len() <= size,
            v@ == Seq::new(v.len() as nat, |p: int| 0u8),
        decreases size - v.len(),
    {
        v.push(0);
        assert(v@ =~= Seq::new(v.len() as nat, |p: int| 0u8));
    }
    v
}

/// What an update run on a session over a flash of `size` bytes, with unlock
/// snapshot `session`, leaves when it returns `r` with the controller's
/// trace gone from `t0` to `t`.
pub open spec fn flash_outcome(
    t0: Seq<Op>,
    t: Seq<Op>,
    size: usize,
    session: ImageMeta,
    image: ImageMeta,
    data: Seq<u8>,
    r: Result<(), UpdateError>,
) -> bool {
    &&& (r is Err ==> {
            ||| r == Err::<(), UpdateError>(UpdateError::HardwareError)
            ||| r == Err::<(), UpdateError>(UpdateError::SizeMismatch)
            ||| r == Err::<(), UpdateError>(UpdateError::ProjectMismatch)
            ||| r == Err::<(), UpdateError>(UpdateError::VersionMismatch)
            ||| r->Err_0 is EraseVerifyFailure
            ||| r == Err::<(), UpdateError>(UpdateError::WriteVerifyFailure)
        })
    &&& (r == Err::<(), UpdateError>(UpdateError::HardwareError) ==> exists|ops: Seq<Op>|
            t == t0 + ops && #[trigger] update_stopped(
                ops,
                size,
                session,
                image,
                data,
            ))
    &&& (r == Err::<(), UpdateError>(UpdateError::SizeMismatch) || r == Err::<(), UpdateError>(
            UpdateError::ProjectMismatch,
        ) || r == Err::<(), UpdateError>(UpdateError::VersionMismatch) ==> exists|v1: Seq<u8>|
            {
                &&& v1.len() == block_count(size) * BLOCK_SIZE
                &&& t == t0 + #[trigger] read_ops(
                    v1,
                    block_count(size),
                )
                &&& r == current_spec(
                    session,
                    file_meta(readback(size, v1)),
                    image,
                )
            })
    &&& (r matches Err(UpdateError::EraseVerifyFailure { offset, value }) ==> exists|
            v1: Seq<u8>,
            v2: Seq<u8>,
        |
            {
                &&& v1.len() == block_count(size) * BLOCK_SIZE
                &&& v2.len() == block_count(size) * BLOCK_SIZE
                &&& current_spec(
                    session,
                    file_meta(readback(size, v1)),
                    image,
                ) == Ok::<(), UpdateError>(())
                &&& t == t0 + #[trigger] erased_ops(
                    size,
                    v1,
                    v2,
                )
                &&& offset < size
                &&& readback(size, v2)[offset as int] == value
                &&& value != 0xFF
                &&& all_erased(readback(size, v2).take(offset as int))
            })
    &&& (r is Ok || r == Err::<(), UpdateError>(UpdateError::WriteVerifyFailure) ==> exists|
            v1: Seq<u8>,
            v2: Seq<u8>,
            v3: Seq<u8>,
        |
            {
                &&& v1.len() == block_count(size) * BLOCK_SIZE
                &&& v2.len() == block_count(size) * BLOCK_SIZE
                &&& v3.len() == block_count(size) * BLOCK_SIZE
                &&& current_spec(
                    session,
                    file_meta(readback(size, v1)),
                    image,
                ) == Ok::<(), UpdateError>(())
                &&& all_erased(readback(size, v2))
                &&& t == t0 + #[trigger] flashed_ops(
                    size,
                    v1,
                    v2,
                    data,
                    v3,
                )
                &&& (r is Ok <==> written_spec(
                    session,
                    file_meta(readback(size, v1)),
                    image,
                    file_meta(readback(size, v3)),
                ))
            })
}

/// Runs the destructive part of an update on an unlocked session: read back
/// and check the current image, erase, check that every byte reads 0xFF,
/// write `data`, then read back and check the written image. The first
/// failing stage ends it; nothing is retried. `image` is the metadata of
/// `data`.
pub fn flash_image<R: EcRegisters>(flasher: &mut EcFlasher<R>, image: &ImageInfo, data: &[u8]) -> (r:
    Result<(), UpdateError>)
    requires
        old(flasher).wf(),
    ensures
        final(flasher).wf(),
        final(flasher).snapshot() == old(flasher).snapshot(),
        flash_outcome(
            old(flasher).trace(),
            final(flasher).trace(),
            old(flasher).spec_size(),
            old(flasher).snapshot(),
            image@,
            data@,
            r,
        ),
{
    let ghost t0 = flasher.trace();
    let ghost size0 = flasher.spec_size();
    let ghost n = block_count(size0);
    let session = flasher.info();
    let size = flasher.size();

    let ghost session_meta = flasher.snapshot();
    let mut current_data = zeroed(size);
    if flasher.read(current_data.as_mut_slice()).is_err() {
        proof {
            let (ops, got) = choose|ops: Seq<Op>, got: Seq<u8>|
                flasher.trace() == t0 + ops && read_stopped(ops, n, got);
            assert(update_stopped(ops, size0, session_meta, image@, data@));
        }
        return Err(UpdateError::HardwareError);
    }
    let ghost v1 = choose|v: Seq<u8>|
        {
            &&& v.len() == n * BLOCK_SIZE
            &&& flasher.trace() == t0 + read_ops(v, n)
            &&& current_data@ == fill(Seq::new(size as nat, |p: int| 0u8), v)
        };
    let current = image_info(current_data.as_slice());
    assert(current_data@ == readback(size0, v1));
    match check_current(&session, &current, image) {
        Ok(()) => {},
        Err(e) => {
            return Err(e);
        },
    }
    let ghost t1 = flasher.trace();

    if flasher.erase().is_err() {
        proof {
            let e = choose|e: Seq<Op>| flasher.trace() == t1 + e && erase_stopped(e);
            let ops = read_ops(v1, n) + e;
            assert(flasher.trace() =~= t0 + ops);
            assert(update_stopped(ops, size0, session_meta, image@, data@));
        }
        return Err(UpdateError::HardwareError);
    }
    let mut erase_data = zeroed(size);
    if flasher.read(erase_data.as_mut_slice()).is_err() {
        proof {
            let (e, got) = choose|e: Seq<Op>, got: Seq<u8>|
                flasher.trace() == t1 + erase_ops() + e && read_stopped(e, n, got);
            let ops = read_ops(v1, n) + erase_ops() + e;
            assert(flasher.trace() =~= t0 + ops);
            assert(update_stopped(ops, size0, session_meta, image@, data@));
        }
        return Err(UpdateError::HardwareError);
    }
    let ghost v2 = choose|v: Seq<u8>|
        {
            &&& v.len() == n * BLOCK_SIZE
            &&& flasher.trace() == t1 + erase_ops() + read_ops(v, n)
            &&& erase_data@ == fill(Seq::new(size as nat, |p: int| 0u8), v)
        };
    proof {
        assert(erase_data@ == readback(size0, v2));
        assert(flasher.trace() =~= t0 + erased_ops(size0, v1, v2));
    }
    match check_erased(erase_data.as_slice()) {
        Ok(()) => {},
        Err(e) => {
            return Err(e);
        },
    }
    let ghost t2 = flasher.trace();

    if flasher.write(data).is_err() {
        proof {
            let e = choose|e: Seq<Op>| flasher.trace() == t2 + e && write_stopped(e, data@, size0);
            let ops = erased_ops(size0, v1, v2) + e;
            assert(flasher.trace() =~= t0 + ops);
            assert(update_stopped(ops, size0, session_meta, image@, data@));
        }
        return Err(UpdateError::HardwareError);
    }
    let mut verify_data = zeroed(size);
    if flasher.read(verify_data.as_mut_slice()).is_err() {
        proof {
            let (e, got) = choose|e: Seq<Op>, got: Seq<u8>|
                flasher.trace() == t2 + image_write_ops(data@, size0) + e && read_stopped(e, n, got);
            let ops = erased_ops(size0, v1, v2) + image_write_ops(data@, size0) + e;
            assert(flasher.trace() =~= t0 + ops);
            assert(update_stopped(ops, size0, session_meta, image@, data@));
        }
        return Err(UpdateError::HardwareError);
    }
    let ghost v3 = choose|v: Seq<u8>|
        {
            &&& v.len() == n * BLOCK_SIZE
            &&& flasher.trace() == t2 + image_write_ops(data@, size0) + read_ops(v, n)
            &&& verify_data@ == fill(Seq::new(size as nat, |p: int| 0u8), v)
        };
    let written = image_info(verify_data.as_slice());
    proof {
        assert(verify_data@ == readback(size0, v3));
        assert(flasher.trace() =~= t0 + flashed_ops(size0, v1, v2, data@, v3));
    }
    check_written(&session, &current, image, &written)
}

/// Unlocks `ec` and runs the update on it, handing the controller back
/// either way. When the unlock fails, the controller has seen only the part
/// of the unlock sequence that completed, ending at the failed transaction;
/// otherwise the unlock sequence is followed by the update, as
/// `flash_outcome` describes it, on the snapshot taken at unlock.
pub fn run_update<R: EcRegisters>(ec: R, image: &ImageInfo, data: &[u8]) -> (r: (
    R,
    Result<(), UpdateError>,
))
    requires
        ec.inv(),
    ensures
        r.0.inv(),
        r.1 == Err::<(), UpdateError>(UpdateError::UnlockFailure) ==> exists|p: u8, x: u8, k: int|
            0 <= k < 9 && r.0.trace() == ec.trace() + #[trigger] unlock_ops(p, x).take(k).push(
                Op::Failed,
            ),
        r.1 != Err::<(), UpdateError>(UpdateError::UnlockFailure) ==> exists|
            p: u8,
            x: u8,
            size: usize,
            session: ImageMeta,
        |
            {
                &&& session.size == size
                &&& #[trigger] flash_outcome(
                    ec.trace() + unlock_ops(p, x),
                    r.0.trace(),
                    size,
                    session,
                    image@,
                    data@,
                    r.1,
                )
            },
{
    match EcFlasher::new(ec) {
        Err(e) => (e, Err(UpdateError::UnlockFailure)),
        Ok(f) => {
            let mut f = f;
            let ghost (p, x) = choose|p: u8, x: u8|
                f.trace() == ec.trace() + unlock_ops(p, x) && f.tuning() == profile(p);
            let ghost size = f.spec_size();
            let ghost session = f.snapshot();
            let r = flash_image(&mut f, image, data);
            let e = f.into_inner();
            assert(flash_outcome(
                ec.trace() + unlock_ops(p, x),
                e.trace(),
                size,
                session,
                image@,
                data@,
                r,
            ));
            (e, r)
        },
    }
}

} // verus!
