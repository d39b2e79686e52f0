//! Metadata of ITE firmware files, as the EC tool's file parser reads it.
use vstd::prelude::*;
use crate::update::{ImageInfo, ImageMeta};

verus! {

/// The project that a firmware file names.
pub uninterp spec fn file_project(data: Seq<u8>) -> Seq<char>;

/// The version that a firmware file names.
pub uninterp spec fn file_version(data: Seq<u8>) -> Seq<char>;

/// Relies on ecflash's `EcFile` (`Ec::project`): the project text of a file,
/// a function of its bytes alone.
#[verifier::external_body]
fn read_project(data: &[u8]) -> (r: String)
    ensures
        r@ == file_project(data@),
{
    let mut file = ecflash::EcFile::new(data.to_vec());
    ecflash::Ec::project(&mut file)
}

/// Relies on ecflash's `EcFile` (`Ec::version`): the version text of a file,
/// a function of its bytes alone.
#[verifier::external_body]
fn read_version(data: &[u8]) -> (r: String)
    ensures
        r@ == file_version(data@),
{
    let mut file = ecflash::EcFile::new(data.to_vec());
    ecflash::Ec::version(&mut file)
}

/// The metadata of a firmware file: its named project and version, and its
/// length as its size.
pub open spec fn file_meta(data: Seq<u8>) -> ImageMeta {
    ImageMeta { project: file_project(data), version: file_version(data), size: data.len() as int }
}

/// Reads the metadata of a raw firmware image. It never fails: malformed
/// input gives whatever metadata it gives, which the stage checks catch.
pub fn image_info(data: &[u8]) -> (r: ImageInfo)
    ensures
        r@ == file_meta(data@),
{
    ImageInfo { project: read_project(data), version: read_version(data), size: data.len() }
}

} // verus!
