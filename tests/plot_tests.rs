use plotfile::identity::{Meta, PlotError};
use plotfile::plot::{Plot, ReadChunk, Segment, NONCE_SIZE, SCOOPS_IN_NONCE, SCOOP_SIZE};

fn open(name: &str, nonces: u64, direct: bool, sector: u64) -> Plot {
    match Plot::new(name, format!("/plots/{}", name), nonces * NONCE_SIZE, direct, sector, false) {
        Ok(p) => p,
        Err(e) => panic!("unexpected error {:?}", e),
    }
}

fn seg(file_pos: u64, buf_start: usize, len: usize) -> Segment {
    Segment { file_pos, buf_start, len }
}

/// Reads until a chunk ends the sweep; returns the chunks.
fn sweep(p: &mut Plot, cap: usize, scoops: &Vec<u32>) -> Vec<ReadChunk> {
    let mut out = Vec::new();
    loop {
        let c = p.read(cap, scoops);
        let done = c.finished;
        out.push(c);
        if done {
            return out;
        }
    }
}

/// The file positions of the chunks' bytes, in the order handed out.
fn positions(chunks: &Vec<ReadChunk>) -> Vec<u64> {
    let mut v = Vec::new();
    for c in chunks {
        let mut next_buf = 0usize;
        for s in &c.segments {
            assert_eq!(s.buf_start, next_buf);
            for t in 0..s.len as u64 {
                v.push(s.file_pos + t);
            }
            next_buf += s.len;
        }
        assert_eq!(next_buf, c.bytes_read);
    }
    v
}

#[test]
fn parse_reads_three_fields() {
    let m = Meta::parse("5_1000_16").unwrap();
    assert_eq!(m.account_id, 5);
    assert_eq!(m.start_nonce, 1000);
    assert_eq!(m.nonces, 16);
    assert_eq!(m.name, "5_1000_16");
    let big = Meta::parse("18446744073709551615_+7_1").unwrap();
    assert_eq!(big.account_id, u64::MAX);
    assert_eq!(big.start_nonce, 7);
    assert_eq!(big.name, "18446744073709551615_7_1");
}

#[test]
fn parse_keeps_the_canonical_name() {
    for name in ["07_1_1", "+7_1_1", "7_+01_001", "7_1_1"] {
        let m = Meta::parse(name).unwrap();
        assert_eq!((m.account_id, m.start_nonce, m.nonces), (7, 1, 1));
        assert_eq!(m.name, "7_1_1");
    }
    let p = Plot::new("0005_01000_016", "/p/0005_01000_016".to_string(), 16 * NONCE_SIZE, false, 512, false).unwrap();
    assert_eq!(p.meta.name, "5_1000_16");
    assert_eq!(p.path, "/p/0005_01000_016");
}

#[test]
fn parse_rejects_malformed_names() {
    for name in ["5_1000", "5_1000_16_2", "5_x_16", "5__16", "", "5_1000_", "18446744073709551616_0_1", "5_1000_0", "+_1_1", "-5_1_1"] {
        assert!(matches!(Meta::parse(name), Err(PlotError::MalformedName)), "{}", name);
    }
}

#[test]
fn new_accepts_exact_size() {
    let p = Plot::new("7_100_3", "/p/7_100_3".to_string(), 3 * NONCE_SIZE, false, 512, true).unwrap();
    assert_eq!(p.meta.account_id, 7);
    assert_eq!(p.meta.start_nonce, 100);
    assert_eq!(p.meta.nonces, 3);
    assert_eq!(p.read_offset, 0);
    assert!(p.dummy);
    assert_eq!(p.path, "/p/7_100_3");
}

#[test]
fn new_rejects_size_off_by_one() {
    for size in [3 * NONCE_SIZE - 1, 3 * NONCE_SIZE + 1] {
        match Plot::new("7_100_3", "/p".to_string(), size, false, 512, false) {
            Err(PlotError::SizeMismatch { expected, actual }) => {
                assert_eq!(expected, 3 * NONCE_SIZE as u128);
                assert_eq!(actual, size);
            }
            _ => panic!("size {} accepted", size),
        }
    }
    assert!(matches!(
        Plot::new("7_100", "/p".to_string(), 0, false, 512, false),
        Err(PlotError::MalformedName)
    ));
}

#[test]
fn new_reports_unrepresentable_size() {
    let n: u64 = 1 << 50;
    match Plot::new("1_0_1125899906842624", "/p".to_string(), 0, false, 512, false) {
        Err(PlotError::SizeMismatch { expected, actual }) => {
            assert_eq!(expected, n as u128 * NONCE_SIZE as u128);
            assert_eq!(actual, 0);
        }
        _ => panic!("accepted"),
    }
}

#[test]
fn overlap_half_open_ranges() {
    let a = Meta::parse("1_0_100").unwrap();
    let b = Meta::parse("1_50_100").unwrap();
    let c = Meta::parse("1_100_100").unwrap();
    assert!(a.overlaps_with(&b));
    assert!(b.overlaps_with(&a));
    assert_eq!(a.overlap(&b), 50);
    assert_eq!(b.overlap(&a), 50);
    assert!(!a.overlaps_with(&c));
    assert!(!c.overlaps_with(&a));
    assert_eq!(a.overlap(&c), 0);
    let inner = Meta::parse("2_10_5").unwrap();
    assert!(a.overlaps_with(&inner));
    assert_eq!(inner.overlap(&a), 5);
}

#[test]
fn overlap_near_the_top_of_the_range() {
    let a = Meta::parse("1_18446744073709551610_100").unwrap();
    let b = Meta::parse("1_18446744073709551600_20").unwrap();
    assert!(a.overlaps_with(&b));
    assert_eq!(a.overlap(&b), 10);
}

#[test]
fn single_chunk_scenario() {
    let mut p = open("5_1000_16", 16, false, 4096);
    let scoops = vec![0u32];
    assert_eq!(p.prepare(&scoops), 0);
    let c = p.read(1024, &scoops);
    assert_eq!((c.bytes_read, c.start_nonce, c.finished), (1024, 1000, true));
    assert_eq!(c.segments, vec![seg(0, 0, 1024)]);
    assert!(c.read_data);
    assert_eq!(p.read_offset, 16 * SCOOP_SIZE);
}

#[test]
fn single_scoop_sweep_covers_the_plane() {
    let mut p = open("5_1000_16", 16, false, 4096);
    let scoops = vec![3u32];
    assert_eq!(p.prepare(&scoops), 3 * 1024);
    let chunks = sweep(&mut p, 192, &scoops);
    let total: usize = chunks.iter().map(|c| c.bytes_read).sum();
    assert_eq!(total, 1024);
    let expected: Vec<u64> = (3 * 1024..4 * 1024).collect();
    assert_eq!(positions(&chunks), expected);
    let starts: Vec<u64> = chunks.iter().map(|c| c.start_nonce).collect();
    assert_eq!(starts, vec![1000, 1003, 1006, 1009, 1012, 1015]);
}

#[test]
fn finished_only_on_the_last_chunk() {
    let mut p = open("1_0_10", 10, false, 512);
    let scoops = vec![9u32];
    p.prepare(&scoops);
    let mut flags = Vec::new();
    let mut offsets = Vec::new();
    for _ in 0..3 {
        let c = p.read(256, &scoops);
        flags.push(c.finished);
        offsets.push(p.read_offset);
    }
    assert_eq!(flags, vec![false, false, true]);
    assert_eq!(offsets, vec![256, 512, 640]);
}

#[test]
fn two_scoops_interleave_by_nonce_cycle() {
    let mut p = open("1_0_4096", 4096, false, 512);
    let plane = 4096 * SCOOP_SIZE;
    let scoops = vec![0u32, 1];
    p.prepare(&scoops);
    let c = p.read(plane as usize, &scoops);
    assert!(c.finished);
    assert_eq!(c.start_nonce, 0);
    assert_eq!(c.segments, vec![seg(0, 0, 131072), seg(plane + 131072, 131072, 131072)]);
}

#[test]
fn two_scoops_phase_follows_absolute_nonce() {
    let mut p = open("1_1000_4096", 4096, false, 512);
    let plane = 4096 * SCOOP_SIZE;
    let scoops = vec![0u32, 1];
    p.prepare(&scoops);
    let c = p.read(plane as usize, &scoops);
    assert_eq!(
        c.segments,
        vec![seg(0, 0, 67072), seg(plane + 67072, 67072, 131072), seg(198144, 198144, 64000)]
    );
}

#[test]
fn multi_scoop_sweep_deinterleaves() {
    let scoops = vec![5u32, 9];
    let plane = 4096 * SCOOP_SIZE;
    let mut multi = open("1_777_4096", 4096, false, 512);
    multi.prepare(&scoops);
    let m = positions(&sweep(&mut multi, 40000, &scoops));
    assert_eq!(m.len() as u64, plane);
    let mut single = Vec::new();
    for s in &scoops {
        let mut q = open("1_777_4096", 4096, false, 512);
        let one = vec![*s];
        q.prepare(&one);
        single.push(positions(&sweep(&mut q, 40000, &one)));
    }
    let mut from = [0u64; 2];
    for (i, pos) in m.iter().enumerate() {
        let j = single.iter().position(|v| v[i] == *pos).expect("byte from neither scoop");
        from[j] += 1;
    }
    assert_eq!(from, [plane / 2, plane / 2]);
}

#[test]
fn direct_io_downgraded_for_small_plots() {
    let mut p = open("1_0_16", 16, true, 4096);
    assert!(!p.use_direct_io);
    let scoops = vec![1u32];
    assert_eq!(p.prepare(&scoops), 1024);
    let c = p.read(700, &scoops);
    assert_eq!((c.bytes_read, c.finished), (700, false));
    let c = p.read(700, &scoops);
    assert_eq!((c.bytes_read, c.finished), (324, true));
}

#[test]
fn direct_io_aligns_and_truncates() {
    let mut p = open("1_0_100", 100, true, 4096);
    assert!(p.use_direct_io);
    let scoops = vec![1u32];
    assert_eq!(p.prepare(&scoops), 8192);
    assert_eq!(p.read_offset, 1792);
    let c = p.read(100000, &scoops);
    assert_eq!((c.bytes_read, c.start_nonce, c.finished), (4096, 28, true));
    assert_eq!(c.segments, vec![seg(8192, 0, 4096)]);
    assert_eq!(p.read_offset, 5888);
    assert!(100 * SCOOP_SIZE - p.read_offset < 4096);
}

#[test]
fn dummy_mode_only_seeks() {
    let mut p = Plot::new("1_0_16", "/p".to_string(), 16 * NONCE_SIZE, false, 512, true).unwrap();
    let scoops = vec![2u32];
    p.prepare(&scoops);
    let c = p.read(4096, &scoops);
    assert!(!c.read_data);
    assert_eq!(c.segments, vec![seg(2048, 0, 1024)]);
}

#[test]
fn seek_target_rounds_under_direct_io() {
    let p = open("1_0_100", 100, true, 4096);
    assert_eq!(p.seek_target(0), 0);
    assert_eq!(p.seek_target(1), 8192);
    let q = open("1_0_100", 100, false, 4096);
    assert_eq!(q.seek_target(1), 6400);
    assert_eq!(q.seek_target(4095), 4095 * 6400);
}

#[test]
fn seek_random_stays_in_the_file() {
    let p = open("1_0_100", 100, false, 4096);
    let size = 100 * NONCE_SIZE;
    let mut seen = std::collections::HashSet::new();
    for _ in 0..200 {
        let r = p.seek_random();
        assert!(r < size);
        assert_eq!(r % 6400, 0);
        assert!(r / 6400 < SCOOPS_IN_NONCE);
        seen.insert(r);
    }
    assert!(seen.len() > 1);
    let d = open("1_0_100", 100, true, 4096);
    for _ in 0..200 {
        let r = d.seek_random();
        assert!(r < size);
        assert_eq!(r % 4096, 0);
    }
}

#[test]
fn canonical_names_read_back() {
    for (a, s, n) in [(0u64, 0u64, 1u64), (5, 1000, 16), (u64::MAX, u64::MAX, u64::MAX), (10, 100, 9)] {
        let name = format!("{}_{}_{}", a, s, n);
        let m = Meta::parse(&name).unwrap();
        assert_eq!((m.account_id, m.start_nonce, m.nonces), (a, s, n));
        assert_eq!(m.name, name);
    }
}

#[test]
fn aligned_direct_io_sweep_covers_the_plane() {
    let mut p = open("1_0_64", 64, true, 4096);
    assert!(p.use_direct_io);
    let scoops = vec![3u32];
    assert_eq!(p.prepare(&scoops), 3 * 4096);
    assert_eq!(p.read_offset, 0);
    let chunks = sweep(&mut p, 4096, &scoops);
    let expected: Vec<u64> = (3 * 4096..4 * 4096).collect();
    assert_eq!(positions(&chunks), expected);
    assert_eq!(p.read_offset, 4096);
}

#[test]
fn multi_scoop_runs_follow_absolute_nonce() {
    let scoops = vec![7u32, 100, 2000, 4095];
    let mut p = open("3_123456_4096", 4096, false, 512);
    let plane = 4096 * SCOOP_SIZE;
    p.prepare(&scoops);
    let m = positions(&sweep(&mut p, 64 * 1000, &scoops));
    assert_eq!(m.len() as u64, plane);
    for (i, pos) in m.iter().enumerate() {
        let nonce = 123456 + i as u64 / SCOOP_SIZE;
        let slot = ((nonce + 7) % SCOOPS_IN_NONCE) / 1024;
        assert_eq!(*pos, scoops[slot as usize] as u64 * plane + i as u64);
    }
}
