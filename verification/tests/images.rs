use iso2x::extracted::{
    is_root_default_xbe, is_system_update, xbe_patch_for, ExtractedError, ExtractedSession,
    ExtractedStep,
};
use iso2x::options::{
    default_sectors_per_chunk, is_exact_number, resolve_identity, resolve_source_options,
    with_transferred_profile, ConsoleIdBytes, DeviceIdBytes, IdentityBytesOverrides,
    OnlineCreatorBytes, OptionError, ProfileIdBytes, ProfileTransferOptions, SigningKeyBytes,
};
use iso2x::scrub::{plan_scrub, scrub_image, Platform, ScrubInfo, ScrubMode};
use iso2x::source::{
    list_files, read_bytes, ByteSource, Concatenated, DirectoryEntry, FileSource, ImageFile,
    ImageFiles, ImageSource, MemorySource, Scrubbed,
};
use iso2x::xiso::format::{build_output_manifest_for, split_name_for, xiso_split_margin};
use iso2x::xiso::read::{open_multi_part, XisoError, XisoSource};
use iso2x::xiso::write::{
    open_direct, plan_sectors, XisoMode, XisoSession,
};
use std::collections::HashSet;

fn counting(n: usize) -> Vec<u8> {
    (0..n).map(|i| (i / 2048 + i % 7) as u8).collect()
}

#[test]
fn concatenated_parts_are_read_across_their_boundaries() {
    let parts = vec![
        MemorySource { data: vec![1, 2, 3] },
        MemorySource { data: vec![] },
        MemorySource { data: vec![4, 5] },
    ];
    let mut whole = Concatenated::new(parts).unwrap();
    assert_eq!(whole.size(), 5);
    assert_eq!(whole.read_at(1, 3).ok().unwrap(), vec![2, 3, 4]);
    assert_eq!(whole.read_at(5, 0).ok().unwrap(), Vec::<u8>::new());
    assert!(whole.read_at(4, 2).is_err());
}

#[test]
fn scrubbed_sectors_read_as_zeros() {
    let image = counting(3 * 2048);
    let mut zero_sectors = HashSet::new();
    zero_sectors.insert(1u64);
    let mut s = Scrubbed { image: MemorySource { data: image.clone() }, zero_sectors };
    let got = s.read_at(2000, 2200).ok().unwrap();
    assert_eq!(got[..48], image[2000..2048]);
    assert!(got[48..2096].iter().all(|b| *b == 0));
    assert_eq!(got[2096..], image[4096..4200]);
}

#[test]
fn directory_entries_become_files() {
    let entries = vec![
        DirectoryEntry { path: "d".to_string(), sector: 1, size: 2048, is_directory: true },
        DirectoryEntry { path: "d/f".to_string(), sector: 2, size: 5, is_directory: false },
    ];
    let files = list_files(&entries);
    assert_eq!(files.len(), 1);
    assert_eq!(files[0].path, "d/f");
    assert_eq!((files[0].offset, files[0].size), (4096, 5));
}

#[test]
fn files_outside_an_image_cannot_be_read() {
    let list = vec![
        ImageFile { path: "in".to_string(), offset: 1, size: 3 },
        ImageFile { path: "out".to_string(), offset: 3, size: 9 },
    ];
    let mut files = ImageFiles::new(MemorySource { data: vec![1, 2, 3, 4] }, list);
    assert_eq!(files.read_file_range(0, 1, 2).ok().unwrap(), vec![3, 4]);
    assert!(files.read_file_range(0, 1, 3).is_err());
    assert!(files.read_file_range(1, 0, 9).is_err());
    assert!(files.read_file_range(2, 0, 0).is_err());
}

#[test]
fn raw_image_is_read_from_its_root() {
    let image = counting(5 * 2048 + 10);
    let mut x = XisoSource::open(MemorySource { data: image.clone() }, 2048).ok().unwrap();
    assert_eq!(x.image_offset(), 2048);
    assert_eq!(x.total_sectors(), 4);
    assert_eq!(x.read_sector(0).ok().unwrap(), &image[2048..4096]);
    assert_eq!(read_bytes(&mut x, 100, 3000).ok().unwrap(), &image[2148..5148]);
    assert!(matches!(x.read_sector(4), Err(XisoError::Read(_))));
    let small = XisoSource::open(MemorySource { data: vec![0; 10] }, 11);
    assert!(matches!(
        small,
        Err(XisoError::SmallerThanRoot { total_size: 10, root_offset: 11 })
    ));
}

#[test]
fn raw_image_in_parts_is_read_as_one() {
    let image = counting(4096);
    let parts = vec![
        MemorySource { data: image[..1000].to_vec() },
        MemorySource { data: image[1000..].to_vec() },
    ];
    let mut x = open_multi_part(parts, 0).ok().unwrap();
    assert_eq!(x.total_sectors(), 2);
    assert_eq!(x.read_sector(0).ok().unwrap(), &image[..2048]);
}

#[test]
fn xiso_manifest_splits_at_the_margin() {
    assert_eq!(xiso_split_margin(), 0xFF00_0000);
    assert_eq!(split_name_for("game", 0), "game.1.xiso.iso");
    assert_eq!(build_output_manifest_for("g", 0), vec![("g.1.xiso.iso".to_string(), 0)]);
    assert_eq!(
        build_output_manifest_for("g", 0xFF00_0000 * 2 + 5),
        vec![
            ("g.1.xiso.iso".to_string(), 0xFF00_0000),
            ("g.2.xiso.iso".to_string(), 0xFF00_0000),
            ("g.3.xiso.iso".to_string(), 5),
        ]
    );
    assert_eq!(
        build_output_manifest_for("g", 0xFF00_0000),
        vec![("g.1.xiso.iso".to_string(), 0xFF00_0000)]
    );
}

fn scan(max_end: u64, used: &[u64], platform: Platform) -> ScrubInfo {
    ScrubInfo { max_end, used_sectors: used.iter().copied().collect(), platform }
}

#[test]
fn sectors_are_planned_by_mode() {
    let info = scan(2048 + 2049, &[0, 2], Platform::Xbox);
    let (n, zero) = plan_sectors(XisoMode::Trim, 4, 2048, &info);
    assert_eq!(n, 2);
    assert!(zero.is_empty());
    let (n, zero) = plan_sectors(XisoMode::Zero, 4, 2048, &info);
    assert_eq!(n, 4);
    assert_eq!(zero, [1u64, 3].iter().copied().collect::<HashSet<u64>>());
    let (n, zero) = plan_sectors(XisoMode::Full, 4, 2048, &info);
    assert_eq!((n, zero.len()), (4, 0));
    let info = scan(2048, &[0], Platform::X360);
    let (n, zero) = plan_sectors(XisoMode::Zero, 4, 0, &info);
    assert_eq!((n, zero.len()), (1, 0));
    assert_eq!(XisoMode::default(), XisoMode::Full);
}

#[test]
fn scrubbing_is_planned_by_mode() {
    let info = scan(2048 + 3 * 2048 + 1, &[0, 2, 3], Platform::Xbox);
    let (n, zero) = plan_scrub(ScrubMode::Copy, 9, 2048, &info);
    assert_eq!((n, zero.len()), (9, 0));
    let (n, zero) = plan_scrub(ScrubMode::Full, 9, 2048, &info);
    assert_eq!((n, zero.len()), (9, 0));
    let (n, zero) = plan_scrub(ScrubMode::Partial, 9, 2048, &info);
    assert_eq!(n, 4);
    assert_eq!(zero, [1u64].iter().copied().collect::<HashSet<u64>>());
    let info = scan(3 * 2048, &[0, 2], Platform::X360);
    let (n, zero) = plan_scrub(ScrubMode::Partial, 9, 0, &info);
    assert_eq!((n, zero.len()), (3, 0));
    assert_eq!(ScrubMode::default(), ScrubMode::Full);
}

#[test]
fn scrubbed_image_keeps_its_used_sectors() {
    let image: Vec<u8> = counting(5 * 2048).iter().map(|b| b | 1).collect();
    let info = scan(4 * 2048, &[0, 3], Platform::Xbox);
    let source = MemorySource { data: image.clone() };
    let (mut s, n) = scrub_image(source, ScrubMode::Partial, 0, &info);
    assert_eq!(n, 4);
    let got = s.read_at(0, 4 * 2048).ok().unwrap();
    assert_eq!(&got[..2048], &image[..2048]);
    assert!(got[2048..3 * 2048].iter().all(|b| *b == 0));
    assert_eq!(&got[3 * 2048..], &image[3 * 2048..4 * 2048]);
    let source = MemorySource { data: image.clone() };
    let (mut s, n) = scrub_image(source, ScrubMode::Copy, 0, &info);
    assert_eq!(n, 5);
    assert_eq!(s.read_at(0, 5 * 2048).ok().unwrap(), image);
}

#[test]
fn zeroed_image_keeps_its_size_and_its_used_sectors() {
    let image = counting(5 * 2048);
    let info = scan(5 * 2048, &[0, 1, 4], Platform::Xbox);
    let source = MemorySource { data: image.clone() };
    let name = Some("game".to_string());
    let mut s = open_direct(source, XisoMode::Zero, 0, &info, 2, true, name).ok().unwrap();
    assert_eq!(s.total_units(), 5);
    assert_eq!(s.output_manifest(), vec![("game.1.xiso.iso".to_string(), 5 * 2048)]);
    let mut out = Vec::new();
    while let Some(chunk) = s.next_chunk(1 << 20).ok().unwrap() {
        assert!(chunk.len() <= 2 * 2048);
        assert_eq!(s.current_entry_name(), Some("game.1.xiso.iso"));
        out.extend_from_slice(&chunk);
    }
    assert!(s.is_done());
    assert_eq!(out.len(), image.len());
    assert_eq!(out[..4096], image[..4096]);
    assert!(out[4096..4 * 2048].iter().all(|b| *b == 0));
    assert_eq!(out[4 * 2048..], image[4 * 2048..]);
}

#[test]
fn trimmed_image_ends_after_its_last_used_byte() {
    let image = counting(5 * 2048);
    let info = scan(2 * 2048 + 1, &[0], Platform::Xbox);
    let source = MemorySource { data: image.clone() };
    let mut s = open_direct(source, XisoMode::Trim, 0, &info, 64, false, None).ok().unwrap();
    assert!(s.output_manifest().is_empty());
    let mut out = Vec::new();
    while let Some(chunk) = s.next_chunk(1).ok().unwrap() {
        assert_eq!(chunk.len(), 2048);
        assert_eq!(s.current_entry_name(), None);
        out.extend_from_slice(&chunk);
    }
    assert_eq!(out, &image[..3 * 2048]);
}

#[test]
fn xbox_360_image_is_trimmed_in_place_of_being_zeroed() {
    let image = counting(5 * 2048);
    let info = scan(2 * 2048 + 1, &[0], Platform::X360);
    let mut outputs = Vec::new();
    for mode in [XisoMode::Zero, XisoMode::Trim] {
        let source = MemorySource { data: image.clone() };
        let mut s = open_direct(source, mode, 0, &info, 64, false, None).ok().unwrap();
        assert_eq!(s.total_units(), 3);
        let mut out = Vec::new();
        while let Some(chunk) = s.next_chunk(1 << 20).ok().unwrap() {
            out.extend_from_slice(&chunk);
        }
        outputs.push(out);
    }
    assert_eq!(outputs[0], &image[..3 * 2048]);
    assert_eq!(outputs[0], outputs[1]);
}

#[test]
fn splitting_needs_a_name() {
    let r = XisoSession::open(MemorySource { data: vec![] }, 0, 1, true, None);
    assert!(matches!(r, Err(XisoError::SplitNeedsName)));
    assert_eq!(XisoError::SplitNeedsName.message(), "xiso: split requires an outputName");
    let r = XisoSession::open(MemorySource { data: vec![] }, u64::MAX, 1, false, None);
    assert!(matches!(r, Err(XisoError::TooManySectors)));
    let mut s = XisoSession::open(MemorySource { data: vec![] }, 1, 0, false, None).ok().unwrap();
    assert!(matches!(s.next_chunk(1), Err(XisoError::Read(_))));
}

#[test]
fn executable_at_the_root_is_found_in_any_case() {
    assert!(is_root_default_xbe("default.xbe"));
    assert!(is_root_default_xbe("/DEFAULT.XBE"));
    assert!(is_root_default_xbe("\\Default.xbe"));
    assert!(!is_root_default_xbe("mydefault.xbe"));
    assert!(!is_root_default_xbe("sub/default.xbe"));
    assert!(!is_root_default_xbe("sub\\default.xbe"));
    assert!(!is_root_default_xbe("default.xex"));
}

#[test]
fn system_update_is_recognised_by_its_prefix() {
    assert!(is_system_update("$SystemUpdate/a.xex"));
    assert!(is_system_update("//$SYSTEMUPDATE"));
    assert!(is_system_update("$systemupdate2/x"));
    assert!(!is_system_update("a/$SystemUpdate/x"));
    assert!(!is_system_update("SystemUpdate"));
}

fn disc_files() -> ImageFiles<MemorySource> {
    let data: Vec<u8> = (0..100).collect();
    let list = vec![
        ImageFile { path: "$SystemUpdate/u".to_string(), offset: 0, size: 10 },
        ImageFile { path: "a.bin".to_string(), offset: 10, size: 25 },
        ImageFile { path: "empty".to_string(), offset: 0, size: 0 },
        ImageFile { path: "Default.xbe".to_string(), offset: 40, size: 4 },
    ];
    ImageFiles::new(MemorySource { data }, list)
}

#[test]
fn files_are_streamed_one_after_the_other() {
    let mut s = ExtractedSession::open(disc_files(), true, None);
    assert_eq!(s.total_units(), 3);
    assert_eq!(s.current_entry_name(), None);
    let manifest = s.output_manifest();
    assert_eq!(manifest[0], ("a.bin".to_string(), 25));
    assert_eq!(manifest[2], ("Default.xbe".to_string(), 4));
    let mut got: Vec<(String, Vec<u8>)> = Vec::new();
    loop {
        match s.next_chunk(10).ok().unwrap() {
            ExtractedStep::Done => break,
            ExtractedStep::Chunk(c) => {
                got.push((s.current_entry_name().unwrap().to_string(), c));
            }
            ExtractedStep::Patch(_) => panic!("nothing is to be patched"),
        }
    }
    assert!(s.is_done());
    let names: Vec<&str> = got.iter().map(|g| g.0.as_str()).collect();
    assert_eq!(names, ["a.bin", "a.bin", "a.bin", "empty", "Default.xbe"]);
    assert_eq!(got[2].1, (30..35).collect::<Vec<u8>>());
    assert!(got[3].1.is_empty());
    assert_eq!(got[4].1, vec![40, 41, 42, 43]);
}

#[test]
fn executable_goes_out_patched() {
    let patch = xbe_patch_for(true, None);
    assert!(patch.is_some());
    assert!(xbe_patch_for(false, None).is_none());
    let mut s = ExtractedSession::open(disc_files(), false, patch);
    let mut last = Vec::new();
    loop {
        match s.next_chunk(3).ok().unwrap() {
            ExtractedStep::Done => break,
            ExtractedStep::Chunk(c) => {
                if s.current_entry_name() == Some("Default.xbe") {
                    last.extend_from_slice(&c);
                }
            }
            ExtractedStep::Patch(mut b) => {
                assert_eq!(b, vec![40, 41, 42, 43]);
                assert!(s.patch_options().unwrap().allowed_media_patch);
                b[0] = 0xFF;
                s.put_patched(b);
            }
        }
    }
    assert_eq!(last, vec![0xFF, 41, 42, 43]);
}

#[test]
fn unreadable_files_stop_the_stream() {
    let list = vec![ImageFile { path: "x".to_string(), offset: 5, size: 5 }];
    let files = ImageFiles::new(MemorySource { data: vec![0; 6] }, list);
    let mut s = ExtractedSession::open(files, false, None);
    assert!(matches!(s.next_chunk(10), Err(ExtractedError::Read(_))));
    assert_eq!(s.current_entry_name(), Some("x"));
}

fn ids(console: Option<usize>, profile: Option<usize>) -> IdentityBytesOverrides {
    IdentityBytesOverrides {
        console_id: ConsoleIdBytes(console.map(|n| vec![1; n])),
        profile_id: ProfileIdBytes(profile.map(|n| vec![2; n])),
        device_id: DeviceIdBytes(None),
        online_creator: OnlineCreatorBytes(None),
    }
}

fn fault(
    ids: IdentityBytesOverrides,
    transfer: Option<ProfileTransferOptions>,
    image: bool,
) -> Option<OptionError> {
    resolve_identity(ids, transfer, image).err()
}

#[test]
fn identity_bytes_have_exact_lengths() {
    assert_eq!(DeviceIdBytes(Some(vec![3; 20])).into_device_id(), Ok(Some([3; 20])));
    assert_eq!(DeviceIdBytes(None).into_device_id(), Ok(None));
    assert_eq!(
        DeviceIdBytes(Some(vec![3; 19])).into_device_id(),
        Err(OptionError::DeviceIdLength(19))
    );
    assert_eq!(
        OnlineCreatorBytes(Some(vec![])).into_online_creator(),
        Err(OptionError::OnlineCreatorLength(0))
    );
    assert_eq!(fault(ids(Some(4), Some(7)), None, false), Some(OptionError::ConsoleIdLength(4)));
    assert_eq!(fault(ids(Some(5), Some(7)), None, false), Some(OptionError::ProfileIdLength(7)));
    assert_eq!(SigningKeyBytes(Some(vec![1])).into_inner(), Some(vec![1]));
}

#[test]
fn profile_transfers_change_something_and_need_extracted_files() {
    let transfer = |tag: Option<&str>, xuid: Option<Vec<u8>>| {
        Some(ProfileTransferOptions {
            new_gamertag: tag.map(|t| t.to_string()),
            new_xuid_bytes: ProfileIdBytes(xuid),
        })
    };
    assert_eq!(
        fault(ids(None, None), transfer(None, None), true),
        Some(OptionError::TransferChangesNothing)
    );
    assert_eq!(
        fault(ids(None, None), transfer(Some("x"), None), true),
        Some(OptionError::TransferNeedsExtracted)
    );
    let xuid = vec![0, 0, 0, 0, 0, 0, 1, 2];
    let r = resolve_identity(ids(None, Some(8)), transfer(Some("x"), Some(xuid)), false);
    let (id, change) = r.ok().unwrap();
    let change = change.unwrap();
    assert_eq!(change.gamertag.as_deref(), Some("x"));
    assert_eq!(change.xuid_online, Some(0x0102));
    assert_eq!(id.profile_id, Some([2; 8]));
    assert_eq!(with_transferred_profile(id, [5; 8]).profile_id, Some([5; 8]));
}

#[test]
fn sources_are_resolved_first() {
    assert_eq!(resolve_source_options(Some(3)), Ok(3));
    let none: Option<u8> = None;
    assert_eq!(resolve_source_options(none), Err(OptionError::SourceUnresolved));
    assert_eq!(default_sectors_per_chunk(), 64);
    assert_eq!(
        OptionError::TransferChangesNothing.message(),
        "profileTransfer requires at least one of newGamertag/newXuid"
    );
}

#[test]
fn exact_numbers_end_at_two_to_the_fifty_third() {
    assert!(is_exact_number(0));
    assert!(is_exact_number(1 << 53));
    assert!(!is_exact_number((1 << 53) + 1));
    assert_eq!((1u64 << 53) as f64 as u64, 1 << 53);
    assert_eq!(((1u64 << 53) + 1) as f64 as u64, 1 << 53);
}
