use firmware_update::flasher::{EcFlasher, BLOCK_SIZE};
use firmware_update::image::image_info;
use firmware_update::memory::MemoryEc;
use firmware_update::registers::{EcRegisters, RawRegisters, Traced};
use firmware_update::update::{
    check_current, check_erased, check_written, flash_image, guard_check, GuardDecision,
    ImageInfo, UpdateError,
};

/// A firmware file in the EC tool's format: the project and version follow
/// `PRJ:` and `VER:` markers and end at `$`.
fn image(project: &str, version: &str, size: usize) -> Vec<u8> {
    let mut data = vec![0u8; size];
    for (i, b) in data.iter_mut().enumerate() {
        *b = (i % 31) as u8;
    }
    let text = format!("PRJ:{}$VER: {}$", project, version);
    data[64..64 + text.len()].copy_from_slice(text.as_bytes());
    data
}

fn info(project: &str, version: &str, size: usize) -> ImageInfo {
    ImageInfo::new(project.to_string(), version.to_string(), size)
}

fn device(data: Vec<u8>, stuck: Option<(usize, u8)>) -> MemoryEc {
    let meta = image_info(&data);
    MemoryEc::new(data, meta.project, meta.version, stuck)
}

#[test]
fn guard_size_mismatch_first() {
    let dev = info("galp3", "1.06", 131072);
    let img = info("other", "1.06", 65536);
    assert_eq!(guard_check(&dev, &img), Err(UpdateError::SizeMismatch));
}

#[test]
fn guard_project_mismatch() {
    let dev = info("galp3", "1.06", 131072);
    let img = info("galp2", "1.07", 131072);
    assert_eq!(guard_check(&dev, &img), Err(UpdateError::ProjectMismatch));
}

#[test]
fn guard_up_to_date() {
    let dev = info("galp3", "1.06", 131072);
    let img = info("galp3", "1.06", 131072);
    assert_eq!(guard_check(&dev, &img), Ok(GuardDecision::UpToDate));
}

#[test]
fn guard_proceed() {
    let dev = info("galp3", "1.06", 131072);
    let img = info("galp3", "1.07", 131072);
    assert_eq!(guard_check(&dev, &img), Ok(GuardDecision::Proceed));
}

#[test]
fn scenario_full_update() {
    let old = image("galp3", "1.06", 131072);
    let new = image("galp3", "1.07", 131072);
    let mut ec = device(old, None);
    let dev = info(&ec.project(), &ec.version(), ec.size());
    let img = image_info(&new);
    assert_eq!(guard_check(&dev, &img), Ok(GuardDecision::Proceed));
    let mut flasher = match EcFlasher::new(ec) {
        Ok(f) => f,
        Err(_) => panic!("unlock failed"),
    };
    assert_eq!(flasher.size(), 131072);
    assert_eq!(flasher.project(), "galp3");
    assert_eq!(flasher.version(), "1.06");
    assert_eq!(flash_image(&mut flasher, &img, &new), Ok(()));
    let ec = flasher.into_inner();
    assert_eq!(ec.flash(), &new);
    assert_eq!(image_info(ec.flash()).version, "1.07");
}

#[test]
fn scenario_size_mismatch_touches_nothing() {
    let old = image("galp3", "1.06", 131072);
    let new = image("galp3", "1.07", 65536);
    let ec = device(old.clone(), None);
    let dev = info("galp3", "1.06", 131072);
    let img = image_info(&new);
    assert_eq!(img.size, 65536);
    assert_eq!(guard_check(&dev, &img), Err(UpdateError::SizeMismatch));
    assert_eq!(ec.flash(), &old);
}

#[test]
fn scenario_erase_verify_failure() {
    let old = image("galp3", "1.06", 131072);
    let new = image("galp3", "1.07", 131072);
    let ec = device(old, Some((4096, 0x01)));
    let img = image_info(&new);
    let mut flasher = match EcFlasher::new(ec) {
        Ok(f) => f,
        Err(_) => panic!("unlock failed"),
    };
    assert_eq!(
        flash_image(&mut flasher, &img, &new),
        Err(UpdateError::EraseVerifyFailure { offset: 4096, value: 0x01 })
    );
    let ec = flasher.into_inner();
    for (i, b) in ec.flash().iter().enumerate() {
        if i == 4096 {
            assert_eq!(*b, 0x01);
        } else {
            assert_eq!(*b, 0xFF, "byte {} was written", i);
        }
    }
}

#[test]
fn flash_refuses_same_version_on_read_back() {
    let old = image("galp3", "1.07", 65536);
    let new = image("galp3", "1.07", 65536);
    let ec = device(old.clone(), None);
    let img = image_info(&new);
    let mut flasher = match EcFlasher::new(ec) {
        Ok(f) => f,
        Err(_) => panic!("unlock failed"),
    };
    assert_eq!(
        flash_image(&mut flasher, &img, &new),
        Err(UpdateError::VersionMismatch)
    );
    assert_eq!(flasher.into_inner().flash(), &old);
}

#[test]
fn write_short_image_pads_with_erased_value() {
    let ec = device(vec![0x11; 65536], None);
    let mut flasher = match EcFlasher::new(ec) {
        Ok(f) => f,
        Err(_) => panic!("unlock failed"),
    };
    let data: Vec<u8> = (0..1000u32).map(|i| (i % 256) as u8).collect();
    assert_eq!(flasher.erase(), Ok(()));
    assert_eq!(flasher.write(&data), Ok(()));
    let mut back = vec![0u8; 65536];
    assert_eq!(flasher.read(&mut back), Ok(()));
    assert_eq!(&back[..1000], &data[..]);
    assert!(back[1000..].iter().all(|b| *b == 0xFF));
}

#[test]
fn erase_twice_reads_all_erased() {
    let ec = device(image("galp3", "1.06", 131072), None);
    let mut flasher = match EcFlasher::new(ec) {
        Ok(f) => f,
        Err(_) => panic!("unlock failed"),
    };
    assert_eq!(flasher.erase(), Ok(()));
    let mut once = vec![0u8; 131072];
    assert_eq!(flasher.read(&mut once), Ok(()));
    assert!(once.iter().all(|b| *b == 0xFF));
    assert_eq!(flasher.erase(), Ok(()));
    let mut twice = vec![0u8; 131072];
    assert_eq!(flasher.read(&mut twice), Ok(()));
    assert_eq!(once, twice);
}

#[test]
fn read_into_short_buffer_keeps_prefix() {
    let data = image("galp3", "1.06", 131072);
    let ec = device(data.clone(), None);
    let mut flasher = match EcFlasher::new(ec) {
        Ok(f) => f,
        Err(_) => panic!("unlock failed"),
    };
    let mut short = vec![0u8; 100];
    assert_eq!(flasher.read(&mut short), Ok(()));
    assert_eq!(&short[..], &data[..100]);
    let mut full = vec![0u8; 131072];
    assert_eq!(flasher.read(&mut full), Ok(()));
    assert_eq!(full, data);
}

#[test]
fn read_into_long_buffer_keeps_tail() {
    let data = image("galp3", "1.06", 65536);
    let ec = device(data.clone(), None);
    let mut flasher = match EcFlasher::new(ec) {
        Ok(f) => f,
        Err(_) => panic!("unlock failed"),
    };
    let mut long = vec![0x5Au8; 65536 + 10];
    assert_eq!(flasher.read(&mut long), Ok(()));
    assert_eq!(&long[..65536], &data[..]);
    assert!(long[65536..].iter().all(|b| *b == 0x5A));
}

#[test]
fn block_size_is_64_kib() {
    assert_eq!(BLOCK_SIZE, 65536);
}

#[test]
fn erased_check_reports_first_bad_byte() {
    let mut data = vec![0xFFu8; 8192];
    assert_eq!(check_erased(&data), Ok(()));
    data[5000] = 0x7E;
    data[4096] = 0x01;
    assert_eq!(
        check_erased(&data),
        Err(UpdateError::EraseVerifyFailure { offset: 4096, value: 0x01 })
    );
    assert_eq!(check_erased(&[]), Ok(()));
}

#[test]
fn current_check_cases() {
    let session = info("galp3", "1.06", 131072);
    let new = info("galp3", "1.07", 131072);
    assert_eq!(check_current(&session, &info("galp3", "1.06", 131072), &new), Ok(()));
    assert_eq!(
        check_current(&session, &info("galp3", "1.06", 65536), &new),
        Err(UpdateError::SizeMismatch)
    );
    assert_eq!(
        check_current(&session, &info("galp2", "1.06", 131072), &new),
        Err(UpdateError::ProjectMismatch)
    );
    assert_eq!(
        check_current(&session, &info("galp3", "1.05", 131072), &new),
        Err(UpdateError::VersionMismatch)
    );
    assert_eq!(
        check_current(&session, &info("galp3", "1.07", 131072), &info("galp3", "1.07", 131072)),
        Err(UpdateError::VersionMismatch)
    );
}

#[test]
fn written_check_cases() {
    let session = info("galp3", "1.06", 131072);
    let current = info("galp3", "1.06", 131072);
    let new = info("galp3", "1.07", 131072);
    assert_eq!(check_written(&session, &current, &new, &info("galp3", "1.07", 131072)), Ok(()));
    assert_eq!(
        check_written(&session, &current, &new, &info("galp3", "1.06", 131072)),
        Err(UpdateError::WriteVerifyFailure)
    );
    assert_eq!(
        check_written(&session, &current, &new, &info("galp2", "1.07", 131072)),
        Err(UpdateError::WriteVerifyFailure)
    );
    assert_eq!(
        check_written(&session, &current, &new, &info("galp3", "1.07", 65536)),
        Err(UpdateError::WriteVerifyFailure)
    );
}

#[test]
fn image_info_reads_markers() {
    let data = image("galp3", "1.07", 4096);
    let meta = image_info(&data);
    assert_eq!(meta.project, "galp3");
    assert_eq!(meta.version, "1.07");
    assert_eq!(meta.size, 4096);
}

#[test]
fn image_info_of_erased_flash_is_empty() {
    let meta = image_info(&vec![0xFFu8; 1024]);
    assert_eq!(meta.project, "");
    assert_eq!(meta.version, "");
    assert_eq!(meta.size, 1024);
}

#[test]
fn write_verify_failure_on_unexpected_version() {
    let old = image("galp3", "1.06", 65536);
    let new = image("galp3", "1.07", 65536);
    let ec = device(old, None);
    let claimed = info("galp3", "1.08", 65536);
    let mut flasher = match EcFlasher::new(ec) {
        Ok(f) => f,
        Err(_) => panic!("unlock failed"),
    };
    assert_eq!(
        flash_image(&mut flasher, &claimed, &new),
        Err(UpdateError::WriteVerifyFailure)
    );
    assert_eq!(flasher.into_inner().flash(), &new);
}

/// A device that counts data reads and answers every one with 0x42.
struct Counting {
    reads: usize,
    cmds: Vec<u8>,
}

impl RawRegisters for Counting {
    fn cmd(&mut self, data: u8) -> Result<(), ()> {
        self.cmds.push(data);
        Ok(())
    }

    fn read(&mut self) -> Result<u8, ()> {
        self.reads += 1;
        Ok(0x42)
    }

    fn write(&mut self, _data: u8) -> Result<(), ()> {
        Ok(())
    }

    fn get_param(&mut self, _param: u8) -> Result<u8, ()> {
        Ok(0x80)
    }

    fn set_param(&mut self, _param: u8, _data: u8) -> Result<(), ()> {
        Ok(())
    }

    fn stall(&mut self, _us: u32) {}

    fn project(&mut self) -> String {
        "galp3".to_string()
    }

    fn version(&mut self) -> String {
        "1.06".to_string()
    }

    fn size(&mut self) -> usize {
        131072
    }
}

#[test]
fn short_read_drains_every_block() {
    let raw = Counting { reads: 0, cmds: Vec::new() };
    let mut flasher = match EcFlasher::new(Traced::new(raw)) {
        Ok(f) => f,
        Err(_) => panic!("unlock failed"),
    };
    let mut short = vec![0u8; 10];
    assert_eq!(flasher.read(&mut short), Ok(()));
    assert_eq!(short, vec![0x42u8; 10]);
    let raw = flasher.into_inner().into_inner();
    // One throwaway read at unlock, then every byte of both blocks.
    assert_eq!(raw.reads, 1 + 131072);
    assert_eq!(raw.cmds, vec![0xde, 0xdc, 0xf0, 0x03, 0x00, 0x03, 0x01]);
}

#[test]
fn unlock_and_erase_commands() {
    let raw = Counting { reads: 0, cmds: Vec::new() };
    let mut flasher = match EcFlasher::new(Traced::new(raw)) {
        Ok(f) => f,
        Err(_) => panic!("unlock failed"),
    };
    assert_eq!(flasher.erase(), Ok(()));
    let raw = flasher.into_inner().into_inner();
    assert_eq!(raw.cmds, vec![0xde, 0xdc, 0xf0, 0x01, 0x00, 0x00, 0x00, 0x00]);
}

/// A device whose data reads fail once `reads_left` is used up.
struct Failing {
    reads_left: usize,
}

impl RawRegisters for Failing {
    fn cmd(&mut self, _data: u8) -> Result<(), ()> {
        Ok(())
    }

    fn read(&mut self) -> Result<u8, ()> {
        if self.reads_left == 0 {
            return Err(());
        }
        self.reads_left -= 1;
        Ok(0)
    }

    fn write(&mut self, _data: u8) -> Result<(), ()> {
        Ok(())
    }

    fn get_param(&mut self, _param: u8) -> Result<u8, ()> {
        Ok(0x40)
    }

    fn set_param(&mut self, _param: u8, _data: u8) -> Result<(), ()> {
        Ok(())
    }

    fn stall(&mut self, _us: u32) {}

    fn project(&mut self) -> String {
        "galp3".to_string()
    }

    fn version(&mut self) -> String {
        "1.06".to_string()
    }

    fn size(&mut self) -> usize {
        65536
    }
}

#[test]
fn unlock_fails_when_handshake_read_fails() {
    let raw = Failing { reads_left: 0 };
    assert!(EcFlasher::new(Traced::new(raw)).is_err());
}

#[test]
fn hardware_error_during_read_back() {
    let raw = Failing { reads_left: 100 };
    let mut flasher = match EcFlasher::new(Traced::new(raw)) {
        Ok(f) => f,
        Err(_) => panic!("unlock failed"),
    };
    let new = image("galp3", "1.07", 65536);
    let img = image_info(&new);
    assert_eq!(flash_image(&mut flasher, &img, &new), Err(UpdateError::HardwareError));
}

#[test]
fn run_update_reports_unlock_failure() {
    let raw = Failing { reads_left: 0 };
    let new = image("galp3", "1.07", 65536);
    let img = image_info(&new);
    let (_, result) = firmware_update::update::run_update(Traced::new(raw), &img, &new);
    assert_eq!(result, Err(UpdateError::UnlockFailure));
}

#[test]
fn run_update_flashes_memory_device() {
    let old = image("galp3", "1.06", 131072);
    let new = image("galp3", "1.07", 131072);
    let img = image_info(&new);
    let (ec, result) = firmware_update::update::run_update(device(old, None), &img, &new);
    assert_eq!(result, Ok(()));
    assert_eq!(ec.flash(), &new);
}
