use hmac::{Hmac, Mac};
use sha2::Sha256;
use subspace_core_rust::plot::{compute_tag, Plot};
use subspace_core_rust::NodeError;

fn plot_with_tags(tags: &[u64]) -> Plot {
    let mut plot = Plot::new();
    plot.tag_map = tags.iter().enumerate().map(|(i, t)| (*t, i)).collect();
    plot
}

fn distance(a: u64, b: u64) -> u64 {
    let d = a.wrapping_sub(b);
    d.min(b.wrapping_sub(a))
}

#[test]
fn range_audit_wraparound_finds_both_tags() {
    let plot = plot_with_tags(&[0x0000_0000_0000_0001, 0xFFFF_FFFF_FFFF_FFFE]);
    let found = plot.find_by_range([0u8; 8], 4).unwrap();
    let tags: Vec<u64> = found.iter().map(|(t, _)| *t).collect();
    assert_eq!(tags, vec![0x0000_0000_0000_0001, 0xFFFF_FFFF_FFFF_FFFE]);
}

#[test]
fn range_near_zero_spans_both_halves() {
    let plot = plot_with_tags(&[0, 3, 100, u64::MAX - 4, u64::MAX - 1]);
    let found = plot.find_by_range(2u64.to_be_bytes(), 10).unwrap();
    let tags: Vec<u64> = found.iter().map(|(t, _)| *t).collect();
    assert_eq!(tags, vec![0, 3, u64::MAX - 1]);
}

#[test]
fn range_without_wrap_is_an_interval() {
    let plot = plot_with_tags(&[10, 20, 30, 40, 50]);
    let found = plot.find_by_range(30u64.to_be_bytes(), 20).unwrap();
    assert_eq!(found, vec![(20, 1), (30, 2), (40, 3)]);
}

#[test]
fn every_found_tag_is_within_half_the_range() {
    let tags: Vec<u64> = (0..64u64).map(|i| i.wrapping_mul(0x0400_0000_0000_0001)).collect();
    let mut sorted = tags.clone();
    sorted.sort();
    sorted.dedup();
    let plot = plot_with_tags(&sorted);
    for &(target, range) in &[(0u64, 1u64 << 60), (u64::MAX, 1 << 62), (1 << 63, 12345)] {
        for (tag, _) in plot.find_by_range(target.to_be_bytes(), range).unwrap() {
            assert!(distance(tag, target) <= range / 2);
        }
    }
}

#[test]
fn full_range_returns_all_stored_tags() {
    let tags = vec![0, 1, 1 << 40, (1 << 63) - 1, 1 << 63, (1 << 63) + 1, u64::MAX];
    let plot = plot_with_tags(&tags);
    for target in [0u64, 1 << 63, u64::MAX, 12345] {
        let found = plot.find_by_range(target.to_be_bytes(), u64::MAX).unwrap();
        let got: Vec<u64> = found.iter().map(|(t, _)| *t).collect();
        assert_eq!(got, tags);
    }
    assert_eq!(plot.get_keys().unwrap(), tags);
}

#[test]
fn find_by_tag_returns_first_tag_not_below() {
    let plot = plot_with_tags(&[5, 9, 20]);
    assert_eq!(plot.find_by_tag(6).unwrap(), (9, 1));
    assert_eq!(plot.find_by_tag(5).unwrap(), (5, 0));
    assert_eq!(plot.find_by_tag(21), Err(NodeError::StorageNotFound));
}

#[test]
fn write_then_read_returns_the_encoding() {
    let mut plot = Plot::new();
    assert!(plot.is_empty());
    let mut piece = [0u8; 4096];
    for (i, b) in piece.iter_mut().enumerate() {
        *b = (i * 7 % 251) as u8;
    }
    plot.write(piece, 42, 3).unwrap();
    assert!(!plot.is_empty());
    assert_eq!(plot.read(3).unwrap()[..], piece[..]);
    assert_eq!(plot.read(4), Err(NodeError::StorageNotFound));

    let mut mac = <Hmac<Sha256> as Mac>::new_from_slice(&42u64.to_le_bytes()).unwrap();
    mac.update(&piece);
    let digest = mac.finalize().into_bytes();
    let tag = u64::from_be_bytes(digest[0..8].try_into().unwrap());
    assert_eq!(compute_tag(&piece, 42), tag);
    assert_eq!(plot.get_keys().unwrap(), vec![tag]);
    assert_eq!(plot.find_by_tag(tag).unwrap(), (tag, 3));

    plot.remove(3).unwrap();
    assert_eq!(plot.read(3), Err(NodeError::StorageNotFound));
    assert!(plot.is_empty());
}

#[test]
fn rewriting_an_index_reads_the_new_encoding() {
    let mut plot = Plot::new();
    plot.write([1u8; 4096], 1, 0).unwrap();
    plot.write([2u8; 4096], 1, 0).unwrap();
    assert_eq!(plot.read(0).unwrap()[..], [2u8; 4096][..]);
    assert_eq!(plot.plot_file.len(), 2 * 4096);
}
