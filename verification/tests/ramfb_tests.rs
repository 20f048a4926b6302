use lib::ramfb::{
    clear, directory_step, dma_descriptor, dma_failed, file_selector, ramfb_config, read_be16, read_be32,
    select_control, DirStep, CTL_READ, CTL_SELECT, CTL_WRITE, FW_CFG_FILE_DIR,
};

#[test]
fn config_record_is_big_endian() {
    let cfg = ramfb_config(0x4012_3456);
    assert_eq!(cfg.len(), 28);
    assert_eq!(
        cfg,
        vec![
            0, 0, 0, 0, 0x40, 0x12, 0x34, 0x56, // address
            0x34, 0x32, 0x52, 0x58, // XR24
            0, 0, 0, 0, // flags
            0, 0, 0x03, 0x20, // 800
            0, 0, 0x02, 0x58, // 600
            0, 0, 0x0c, 0x80, // 3200
        ]
    );
}

#[test]
fn dma_descriptor_is_big_endian() {
    assert_eq!(
        dma_descriptor(0x0019_000a, 4, 0x1122_3344_5566_7788),
        vec![0, 0x19, 0, 0x0a, 0, 0, 0, 4, 0x11, 0x22, 0x33, 0x44, 0x55, 0x66, 0x77, 0x88]
    );
}

#[test]
fn control_words() {
    assert_eq!(select_control(FW_CFG_FILE_DIR, CTL_READ), 0x0019_000a);
    assert_eq!(select_control(0x0022, 0), 0x0022_0008);
    assert_eq!(select_control(0xffff, CTL_SELECT | CTL_READ), 0xffff_000a);
    assert_eq!(CTL_WRITE, 0x10);
}

#[test]
fn error_bit() {
    assert!(dma_failed(1));
    assert!(dma_failed(0x13));
    assert!(!dma_failed(0));
    assert!(!dma_failed(0x10));
}

#[test]
fn big_endian_reads() {
    assert_eq!(read_be32(&[0, 0, 0, 5], 0), 5);
    assert_eq!(read_be32(&[9, 0x12, 0x34, 0x56, 0x78], 1), 0x1234_5678);
    assert_eq!(read_be16(&[0, 0x22, 1], 1), 0x2201);
}

fn entry(name: &[u8], select: u16) -> Vec<u8> {
    let mut e = vec![0u8; 64];
    e[0..4].copy_from_slice(&1024u32.to_be_bytes());
    e[4..6].copy_from_slice(&select.to_be_bytes());
    e[8..8 + name.len()].copy_from_slice(name);
    e
}

#[test]
fn directory_entry_matching() {
    assert_eq!(file_selector(&entry(b"etc/ramfb", 0x22), b"etc/ramfb"), Some(0x22));
    assert_eq!(file_selector(&entry(b"etc/ramfb2", 0x22), b"etc/ramfb"), None);
    assert_eq!(file_selector(&entry(b"etc/ramf", 0x22), b"etc/ramfb"), None);
    assert_eq!(file_selector(&entry(b"opt/other", 0x30), b"etc/ramfb"), None);
    assert_eq!(file_selector(&entry(b"bootorder", 0x1234), b"bootorder"), Some(0x1234));
}

#[test]
fn clear_paints_every_pixel() {
    let mut px = vec![7u32; 800 * 3];
    clear(&mut px, 0x00ff_8800);
    assert!(px.iter().all(|&p| p == 0x00ff_8800));
    assert_eq!(px.len(), 2400);
}

#[test]
fn written_words_read_back() {
    let d = dma_descriptor(0xdead_beef, 28, 0x0102_0304_0506_0708);
    assert_eq!(read_be32(&d, 0), 0xdead_beef);
    assert_eq!(read_be32(&d, 4), 28);
    assert_eq!(read_be32(&d, 8), 0x0102_0304);
    assert_eq!(read_be32(&d, 12), 0x0506_0708);
    let cfg = ramfb_config(0);
    assert_eq!(read_be32(&cfg, 16), 800);
    assert_eq!(read_be32(&cfg, 20), 600);
    assert_eq!(read_be32(&cfg, 24), 3200);
}

#[test]
fn directory_walk_steps() {
    let hit = entry(b"etc/ramfb", 0x22);
    let miss = entry(b"bootorder", 0x05);
    assert_eq!(directory_step(0, 3, &hit, b"etc/ramfb"), DirStep::Found(0x22));
    assert_eq!(directory_step(2, 3, &hit, b"etc/ramfb"), DirStep::Found(0x22));
    assert_eq!(directory_step(0, 3, &miss, b"etc/ramfb"), DirStep::ReadNext);
    assert_eq!(directory_step(1, 3, &miss, b"etc/ramfb"), DirStep::ReadNext);
    assert_eq!(directory_step(2, 3, &miss, b"etc/ramfb"), DirStep::NotFound);
}
