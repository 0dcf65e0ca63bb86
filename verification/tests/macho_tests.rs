use plume_signer::macho::{MachO, MachOBinary};

/// A minimal 64-bit image: the 32-byte header, one dylib load command
/// carrying "abc", and 64 spare bytes of gap (no segments, so the gap
/// runs to the end of the buffer).
fn sample_macho() -> Vec<u8> {
    let mut d: Vec<u8> = Vec::new();
    // header
    d.extend_from_slice(&0xfeedfacfu32.to_le_bytes()); // magic (64-bit)
    d.extend_from_slice(&0x0100000cu32.to_le_bytes()); // cputype
    d.extend_from_slice(&0u32.to_le_bytes()); // cpusubtype
    d.extend_from_slice(&2u32.to_le_bytes()); // filetype
    d.extend_from_slice(&1u32.to_le_bytes()); // ncmds
    d.extend_from_slice(&32u32.to_le_bytes()); // sizeofcmds
    d.extend_from_slice(&0u32.to_le_bytes()); // flags
    d.extend_from_slice(&0u32.to_le_bytes()); // reserved
    // one LC_LOAD_DYLIB command, 32 bytes: 24-byte header + "abc\0" + pad
    d.extend_from_slice(&0xcu32.to_le_bytes()); // cmd
    d.extend_from_slice(&32u32.to_le_bytes()); // cmdsize
    d.extend_from_slice(&24u32.to_le_bytes()); // name offset
    d.extend_from_slice(&2u32.to_le_bytes()); // timestamp
    d.extend_from_slice(&0x00010000u32.to_le_bytes()); // current version
    d.extend_from_slice(&0x00010000u32.to_le_bytes()); // compat version
    d.extend_from_slice(b"abc\0\0\0\0\0");
    // gap
    d.extend_from_slice(&[0u8; 64]);
    d
}

fn ncmds_of(bytes: &[u8]) -> u32 {
    u32::from_le_bytes([bytes[16], bytes[17], bytes[18], bytes[19]])
}

fn sizeofcmds_of(bytes: &[u8]) -> u32 {
    u32::from_le_bytes([bytes[20], bytes[21], bytes[22], bytes[23]])
}

#[test]
fn parse_accepts_well_formed_image() {
    let m = MachOBinary::parse(sample_macho());
    assert!(m.is_ok());
}

#[test]
fn parse_rejects_truncated_image() {
    let d = sample_macho();
    assert!(MachOBinary::parse(d[..20].to_vec()).is_err());
    assert!(MachOBinary::parse(vec![0u8; 40]).is_err());
}

#[test]
fn parse_rejects_bad_sizeofcmds() {
    let mut d = sample_macho();
    // command table claimed to run past the end of the file
    d[20..24].copy_from_slice(&100000u32.to_le_bytes());
    assert!(MachOBinary::parse(d).is_err());
}

#[test]
fn lists_existing_dylib_paths() {
    let m = MachOBinary::parse(sample_macho()).unwrap();
    let paths = m.dylib_load_paths();
    assert_eq!(paths, vec!["abc".to_string()]);
}

#[test]
fn add_then_remove_restores_counters() {
    let mut m = MachOBinary::parse(sample_macho()).unwrap();
    let before_ncmds = ncmds_of(m.bytes());
    let before_size = sizeofcmds_of(m.bytes());
    let before_len = m.bytes().len();

    assert!(m.add_dylib_load_path("@rpath/X.dylib").is_ok());
    assert!(m.has_dylib_load_path("@rpath/X.dylib"));
    assert_eq!(ncmds_of(m.bytes()), before_ncmds + 1);
    let paths = m.dylib_load_paths();
    assert!(paths.contains(&"@rpath/X.dylib".to_string()));
    assert!(paths.contains(&"abc".to_string()));

    assert!(m.remove_dylib_load_path("@rpath/X.dylib").is_ok());
    assert!(!m.has_dylib_load_path("@rpath/X.dylib"));
    assert_eq!(ncmds_of(m.bytes()), before_ncmds);
    assert_eq!(sizeofcmds_of(m.bytes()), before_size);
    // removal closes the gap: the buffer shrinks by the removed command,
    // a 24-byte header plus the path, its NUL and padding
    assert_eq!(m.bytes().len(), before_len - 40);
}

#[test]
fn add_is_idempotent() {
    let mut m = MachOBinary::parse(sample_macho()).unwrap();
    assert!(m.add_dylib_load_path("@rpath/X.dylib").is_ok());
    let snapshot = m.bytes().clone();
    assert!(m.add_dylib_load_path("@rpath/X.dylib").is_ok());
    assert_eq!(m.bytes(), &snapshot);
}

#[test]
fn add_fails_closed_when_gap_too_small() {
    let mut d = sample_macho();
    d.truncate(64); // header + the one command, no gap at all
    let mut m = MachOBinary::parse(d).unwrap();
    let snapshot = m.bytes().clone();
    let r = m.add_dylib_load_path("@rpath/TooBig.dylib");
    assert!(r.is_err());
    assert_eq!(m.bytes(), &snapshot);
}

#[test]
fn replace_within_slot_succeeds() {
    let mut m = MachOBinary::parse(sample_macho()).unwrap();
    let before_size = sizeofcmds_of(m.bytes());
    assert!(m.replace_dylib_load_path("abc", "xy").is_ok());
    let paths = m.dylib_load_paths();
    assert!(paths.contains(&"xy".to_string()));
    assert!(!paths.contains(&"abc".to_string()));
    assert_eq!(sizeofcmds_of(m.bytes()), before_size);
}

#[test]
fn replace_too_long_fails_closed() {
    let mut m = MachOBinary::parse(sample_macho()).unwrap();
    let snapshot = m.bytes().clone();
    // slot holds 8 bytes after the 24-byte header; 8 chars + NUL + pad
    // cannot fit
    let r = m.replace_dylib_load_path("abc", "abcdefgh");
    assert!(r.is_err());
    assert_eq!(m.bytes(), &snapshot);
}

#[test]
fn replace_missing_path_is_a_no_op() {
    let mut m = MachOBinary::parse(sample_macho()).unwrap();
    let snapshot = m.bytes().clone();
    assert!(m.replace_dylib_load_path("nothere", "xy").is_ok());
    assert_eq!(m.bytes(), &snapshot);
}

#[test]
fn remove_missing_path_keeps_counters() {
    let mut m = MachOBinary::parse(sample_macho()).unwrap();
    let before_ncmds = ncmds_of(m.bytes());
    let before_size = sizeofcmds_of(m.bytes());
    assert!(m.remove_dylib_load_path("nothere").is_ok());
    assert_eq!(ncmds_of(m.bytes()), before_ncmds);
    assert_eq!(sizeofcmds_of(m.bytes()), before_size);
}

#[test]
fn universal_container_splits_slices() {
    let slice = sample_macho();
    let mut fat: Vec<u8> = Vec::new();
    fat.extend_from_slice(&0xcafebabeu32.to_be_bytes()); // fat magic
    fat.extend_from_slice(&1u32.to_be_bytes()); // one slice
    fat.extend_from_slice(&0x0100000cu32.to_be_bytes()); // cputype
    fat.extend_from_slice(&0u32.to_be_bytes()); // cpusubtype
    fat.extend_from_slice(&28u32.to_be_bytes()); // offset
    fat.extend_from_slice(&(slice.len() as u32).to_be_bytes()); // size
    fat.extend_from_slice(&14u32.to_be_bytes()); // alignment
    fat.extend_from_slice(&slice);
    let m = MachO::parse(fat).unwrap();
    assert_eq!(m.arch_len(), 1);
    assert_eq!(m.slice_at(0).bytes(), &slice);
}

#[test]
fn container_add_and_remove_cover_all_slices() {
    let m = MachO::parse(sample_macho()).unwrap();
    assert_eq!(m.arch_len(), 1);
    let mut m = m;
    assert!(m.add_dylib("@rpath/Y.dylib").is_ok());
    assert!(m.slice_at(0).has_dylib_load_path("@rpath/Y.dylib"));
    assert!(m.remove_dylib("@rpath/Y.dylib").is_ok());
    assert!(!m.slice_at(0).has_dylib_load_path("@rpath/Y.dylib"));
    assert!(m.replace_dylib("abc", "xy").is_ok());
    assert!(m.slice_at(0).has_dylib_load_path("xy"));
}

#[test]
fn embedded_entitlements_found_in_code_signature() {
    // header + one LC_CODE_SIGNATURE command pointing past the commands
    let xml = b"<plist><dict/></plist>";
    let blob_len = 8 + xml.len() as u32;
    let mut d: Vec<u8> = Vec::new();
    d.extend_from_slice(&0xfeedfacfu32.to_le_bytes());
    d.extend_from_slice(&0u32.to_le_bytes());
    d.extend_from_slice(&0u32.to_le_bytes());
    d.extend_from_slice(&2u32.to_le_bytes());
    d.extend_from_slice(&1u32.to_le_bytes()); // ncmds
    d.extend_from_slice(&16u32.to_le_bytes()); // sizeofcmds
    d.extend_from_slice(&0u32.to_le_bytes());
    d.extend_from_slice(&0u32.to_le_bytes());
    // LC_CODE_SIGNATURE: cmd, cmdsize, dataoff, datasize
    let dataoff = 48u32;
    let datasize = 12 + 8 + 8 + xml.len() as u32;
    d.extend_from_slice(&0x1du32.to_le_bytes());
    d.extend_from_slice(&16u32.to_le_bytes());
    d.extend_from_slice(&dataoff.to_le_bytes());
    d.extend_from_slice(&datasize.to_le_bytes());
    // superblob at dataoff: magic, length, count, one index entry (type 5)
    d.extend_from_slice(&0xfade0cc0u32.to_be_bytes());
    d.extend_from_slice(&datasize.to_be_bytes());
    d.extend_from_slice(&1u32.to_be_bytes());
    d.extend_from_slice(&5u32.to_be_bytes()); // entitlements slot
    d.extend_from_slice(&20u32.to_be_bytes()); // blob offset inside the data
    // entitlements blob: magic, length, xml
    d.extend_from_slice(&0xfade7171u32.to_be_bytes());
    d.extend_from_slice(&blob_len.to_be_bytes());
    d.extend_from_slice(xml);
    let m = MachOBinary::parse(d).unwrap();
    let ents = m.embedded_entitlements().expect("entitlements blob expected");
    assert_eq!(ents, xml.to_vec());
}

#[test]
fn unsigned_image_has_no_entitlements() {
    let m = MachOBinary::parse(sample_macho()).unwrap();
    assert!(m.embedded_entitlements().is_none());
}

#[test]
fn commit_single_slice_writes_through() {
    let m = MachO::parse(sample_macho()).unwrap();
    let out = m.to_bytes().unwrap();
    assert_eq!(out, sample_macho());
}

#[test]
fn commit_rebuilds_universal_container() {
    let slice = sample_macho();
    let mut fat: Vec<u8> = Vec::new();
    fat.extend_from_slice(&0xcafebabeu32.to_be_bytes());
    fat.extend_from_slice(&2u32.to_be_bytes());
    for k in 0..2u32 {
        fat.extend_from_slice(&(0x0100000c + k).to_be_bytes());
        fat.extend_from_slice(&0u32.to_be_bytes());
        fat.extend_from_slice(&(48 + k * slice.len() as u32).to_be_bytes());
        fat.extend_from_slice(&(slice.len() as u32).to_be_bytes());
        fat.extend_from_slice(&0u32.to_be_bytes());
    }
    fat.extend_from_slice(&slice);
    fat.extend_from_slice(&slice);
    let m = MachO::parse(fat).unwrap();
    assert_eq!(m.arch_len(), 2);
    let out = m.to_bytes().unwrap();
    assert_eq!(&out[0..4], &0xcafebabeu32.to_be_bytes());
    assert_eq!(&out[4..8], &2u32.to_be_bytes());
    // the rebuilt container parses back to the same slices
    let again = MachO::parse(out).unwrap();
    assert_eq!(again.arch_len(), 2);
    assert_eq!(again.slice_at(0).bytes(), &slice);
    assert_eq!(again.slice_at(1).bytes(), &slice);
}

#[test]
fn sdk_version_patch_rewrites_build_version_commands() {
    // an image with one dylib command and one build-version command
    let mut d: Vec<u8> = Vec::new();
    d.extend_from_slice(&0xfeedfacfu32.to_le_bytes());
    d.extend_from_slice(&0u32.to_le_bytes());
    d.extend_from_slice(&0u32.to_le_bytes());
    d.extend_from_slice(&2u32.to_le_bytes());
    d.extend_from_slice(&2u32.to_le_bytes()); // ncmds
    d.extend_from_slice(&56u32.to_le_bytes()); // sizeofcmds
    d.extend_from_slice(&0u32.to_le_bytes());
    d.extend_from_slice(&0u32.to_le_bytes());
    // LC_LOAD_DYLIB carrying "abc"
    d.extend_from_slice(&0xcu32.to_le_bytes());
    d.extend_from_slice(&32u32.to_le_bytes());
    d.extend_from_slice(&24u32.to_le_bytes());
    d.extend_from_slice(&2u32.to_le_bytes());
    d.extend_from_slice(&0x00010000u32.to_le_bytes());
    d.extend_from_slice(&0x00010000u32.to_le_bytes());
    d.extend_from_slice(b"abc\0\0\0\0\0");
    // LC_BUILD_VERSION: platform, minos, sdk, ntools
    d.extend_from_slice(&0x32u32.to_le_bytes());
    d.extend_from_slice(&24u32.to_le_bytes());
    d.extend_from_slice(&2u32.to_le_bytes()); // platform
    d.extend_from_slice(&0x000e0000u32.to_le_bytes()); // minos
    d.extend_from_slice(&0x000f0000u32.to_le_bytes()); // sdk
    d.extend_from_slice(&0u32.to_le_bytes()); // ntools
    let mut m = MachOBinary::parse(d.clone()).unwrap();
    assert!(m.set_sdk_version(0x001a0000).is_ok()); // 26.0.0
    let out = m.bytes();
    assert_eq!(out.len(), d.len());
    assert_eq!(ncmds_of(out), 2);
    assert_eq!(sizeofcmds_of(out), 56);
    // the sdk word of the build-version command moved to the new value
    let sdk_off = 32 + 32 + 16;
    assert_eq!(
        u32::from_le_bytes([out[sdk_off], out[sdk_off + 1], out[sdk_off + 2], out[sdk_off + 3]]),
        0x001a0000
    );
    // minos and the dylib path stand
    assert_eq!(
        u32::from_le_bytes([out[sdk_off - 4], out[sdk_off - 3], out[sdk_off - 2], out[sdk_off - 1]]),
        0x000e0000
    );
    assert_eq!(m.dylib_load_paths(), vec!["abc".to_string()]);
}
