use image2coords::centroid::{centroid, centroids};
use image2coords::cluster::{extract_clusters, DEFAULT_RADIUS};
use image2coords::color::{background_color, classify, foreground_color, marker_color, ColorObj};
use image2coords::export::{decimal_bytes, encode_records, export_csv, header_record, row_record, trajectory_table};
use image2coords::frame::{Frame, FrameError};
use image2coords::track::{distance, track_centroids, Tracker};
use image2coords::video::{analyze, detect_centroids};

fn mask(width: u32, height: u32, fg: &[(u32, u32)]) -> Frame {
    let mut pixels = vec![background_color(); (width * height) as usize];
    for &(x, y) in fg {
        pixels[(y * width + x) as usize] = foreground_color();
    }
    Frame { width, height, pixels }
}

fn sorted(mut v: Vec<(u32, u32)>) -> Vec<(u32, u32)> {
    v.sort();
    v
}

#[test]
fn classify_within_window() {
    let reference = ColorObj::new(100, 100, 100);
    assert!(classify(ColorObj::new(110, 90, 100), reference, 10));
    assert!(!classify(ColorObj::new(111, 100, 100), reference, 10));
    assert!(!classify(ColorObj::new(100, 100, 89), reference, 10));
}

#[test]
fn classify_clamps_at_channel_limits() {
    assert!(classify(ColorObj::new(255, 0, 0), ColorObj::new(250, 5, 0), 10));
    assert!(!classify(ColorObj::new(239, 0, 0), ColorObj::new(250, 5, 0), 10));
    assert!(classify(ColorObj::new(255, 255, 255), ColorObj::new(255, 255, 255), 255));
}

#[test]
fn classify_reference_always_matches() {
    for t in [0u8, 1, 50, 255] {
        for c in [ColorObj::new(0, 0, 0), ColorObj::new(255, 0, 0), ColorObj::new(12, 200, 255)] {
            assert!(classify(c, c, t));
            assert_eq!(classify(c, c.copy(), t), classify(c, c, t));
        }
    }
}

#[test]
fn frame_from_rgb_checks_length() {
    let f = Frame::from_rgb(2, 1, &vec![1, 2, 3, 4, 5, 6]).unwrap();
    assert_eq!(f.pixels, vec![ColorObj::new(1, 2, 3), ColorObj::new(4, 5, 6)]);
    assert_eq!(f.to_rgb(), vec![1, 2, 3, 4, 5, 6]);
    assert!(matches!(Frame::from_rgb(2, 2, &vec![0; 6]), Err(FrameError::InputShape)));
    assert!(matches!(Frame::from_rgb(1, 1, &vec![0; 4]), Err(FrameError::InputShape)));
}

#[test]
fn get_and_set_pixel_row_major() {
    let mut f = Frame::from_rgb(3, 2, &vec![0; 18]).unwrap();
    f.set_pixel(2, 1, ColorObj::new(9, 8, 7));
    assert_eq!(f.get_pixel(2, 1), ColorObj::new(9, 8, 7));
    assert_eq!(f.pixels[5], ColorObj::new(9, 8, 7));
    assert_eq!(f.get_pixel(1, 1), ColorObj::new(0, 0, 0));
}

#[test]
fn threshold_yields_two_colors_only() {
    let raw = vec![255, 0, 0, 210, 30, 30, 0, 0, 255, 10, 20, 30];
    let f = Frame::from_rgb(2, 2, &raw).unwrap();
    let m = f.threshold(ColorObj::new(255, 0, 0), 50);
    assert_eq!((m.width, m.height), (2, 2));
    assert_eq!(
        m.pixels,
        vec![foreground_color(), foreground_color(), background_color(), background_color()]
    );
    for p in &m.pixels {
        assert!(*p == foreground_color() || *p == background_color());
    }
}

#[test]
fn single_block_gives_one_cluster() {
    let mut block = Vec::new();
    for x in 4..7 {
        for y in 4..7 {
            block.push((x, y));
        }
    }
    let m = mask(10, 10, &block);
    let clusters = extract_clusters(&m, DEFAULT_RADIUS);
    assert_eq!(clusters.len(), 1);
    assert_eq!(clusters[0].len(), 9);
    assert_eq!(sorted(clusters[0].clone()), sorted(block));
    assert_eq!(centroid(&clusters[0]), (5, 5));
    assert_eq!(detect_centroids(&m, DEFAULT_RADIUS), vec![(5, 5)]);
}

#[test]
fn clusters_partition_foreground() {
    let fg = [(0, 0), (1, 0), (0, 1), (7, 7), (8, 8), (9, 9), (4, 2)];
    let m = mask(10, 10, &fg);
    let clusters = extract_clusters(&m, DEFAULT_RADIUS);
    let mut all: Vec<(u32, u32)> = clusters.iter().flatten().cloned().collect();
    all.sort();
    let mut expected = fg.to_vec();
    expected.sort();
    assert_eq!(all, expected);
    assert_eq!(clusters.len(), 3);
    assert!(clusters.iter().all(|c| !c.is_empty()));
}

#[test]
fn neighborhood_is_asymmetric_square() {
    // From (2, 0) the offset -2 reaches (0, 0), but (0, 0) is scanned first and
    // its offsets stop at +1, so the two pixels form two clusters.
    let m = mask(5, 1, &[(0, 0), (2, 0)]);
    assert_eq!(extract_clusters(&m, 2).len(), 2);
    // A gap of one pixel is bridged in the scan direction when the later pixel
    // lies within offset +1 of a member: (0,0), (1,0) and then (2,0) from (1,0).
    let m = mask(5, 1, &[(0, 0), (1, 0), (2, 0)]);
    assert_eq!(extract_clusters(&m, 2).len(), 1);
    // With radius 3 the offset +2 bridges a one-pixel gap.
    let m = mask(5, 1, &[(0, 0), (2, 0)]);
    assert_eq!(extract_clusters(&m, 3).len(), 1);
}

#[test]
fn empty_mask_has_no_centroids() {
    let m = mask(4, 4, &[]);
    assert!(extract_clusters(&m, DEFAULT_RADIUS).is_empty());
    assert!(detect_centroids(&m, DEFAULT_RADIUS).is_empty());
}

#[test]
fn centroid_rounds_down_and_stays_in_box() {
    assert_eq!(centroid(&vec![(0, 0), (1, 1)]), (0, 0));
    assert_eq!(centroid(&vec![(3, 9), (4, 2), (8, 4)]), (5, 5));
    let c = centroid(&vec![(u32::MAX, u32::MAX), (u32::MAX - 1, u32::MAX)]);
    assert_eq!(c, (u32::MAX - 1, u32::MAX));
    assert_eq!(centroids(&vec![vec![(2, 2)], vec![(4, 6), (6, 6)]]), vec![(2, 2), (5, 6)]);
}

#[test]
fn distance_truncates() {
    assert_eq!(distance((0, 0), (3, 4)), 5);
    assert_eq!(distance((0, 0), (1, 1)), 1);
    assert_eq!(distance((9, 9), (1, 1)), 11);
    assert_eq!(distance((5, 5), (5, 5)), 0);
    assert_eq!(distance((0, 0), (u32::MAX, u32::MAX)), 6074000998);
}

#[test]
fn bootstrap_creates_one_track_per_centroid() {
    let mut t = Tracker::new();
    t.process_frame(&vec![(1, 1), (5, 5), (9, 0)]);
    assert_eq!(t.frames, 1);
    assert_eq!(t.tracks, vec![vec![(0, (1, 1))], vec![(0, (5, 5))], vec![(0, (9, 0))]]);
}

#[test]
fn two_frames_single_track() {
    let tracks = track_centroids(&vec![vec![(2, 2)], vec![(2, 3)]]);
    assert_eq!(tracks, vec![vec![(0, (2, 2)), (1, (2, 3))]]);
    let table = trajectory_table(&tracks, 2);
    assert_eq!(table.len(), 3);
    assert_eq!(table[0].len(), 3);
    let csv = export_csv(&tracks, 2);
    assert_eq!(String::from_utf8(csv).unwrap(), "pointx_0, pointy_0,\n2,2,\n2,3,\n");
}

#[test]
fn nearest_track_takes_detection() {
    let tracks = track_centroids(&vec![vec![(0, 0), (9, 9)], vec![(1, 1)]]);
    assert_eq!(tracks, vec![vec![(0, (0, 0)), (1, (1, 1))], vec![(0, (9, 9))]]);
}

#[test]
fn tie_goes_to_lowest_index_and_assignment_is_not_exclusive() {
    let tracks = track_centroids(&vec![vec![(0, 0), (4, 0)], vec![(2, 0), (3, 0)]]);
    // (2,0) is 2 from both: track 0 wins; (3,0) is then 1 from track 0's new end
    // and 1 from track 1: track 0 again.
    assert_eq!(tracks, vec![vec![(0, (0, 0)), (1, (2, 0)), (1, (3, 0))], vec![(0, (4, 0))]]);
}

#[test]
fn no_tracks_when_first_frame_is_empty() {
    let tracks = track_centroids(&vec![vec![], vec![(1, 1)], vec![(2, 2)]]);
    assert!(tracks.is_empty());
    let csv = export_csv(&tracks, 3);
    assert_eq!(String::from_utf8(csv).unwrap(), "\"\"\n\"\"\n\"\"\n\"\"\n");
}

#[test]
fn export_blanks_missing_positions() {
    let tracks = vec![vec![(0, (10, 20)), (1, (11, 21))], vec![(0, (3, 4))]];
    assert_eq!(header_record(2), vec![
        b"pointx_0".to_vec(), b" pointy_0".to_vec(), b"pointx_1".to_vec(), b" pointy_1".to_vec(), Vec::new()
    ]);
    assert_eq!(row_record(&tracks, 1), vec![
        b"11".to_vec(), b"21".to_vec(), Vec::new(), Vec::new(), Vec::new()
    ]);
    let csv = export_csv(&tracks, 2);
    assert_eq!(
        String::from_utf8(csv).unwrap(),
        "pointx_0, pointy_0,pointx_1, pointy_1,\n10,20,3,4,\n11,21,,,\n"
    );
}

#[test]
fn decimal_digits() {
    assert_eq!(decimal_bytes(0), b"0".to_vec());
    assert_eq!(decimal_bytes(7), b"7".to_vec());
    assert_eq!(decimal_bytes(1204), b"1204".to_vec());
    assert_eq!(decimal_bytes(u64::MAX), u64::MAX.to_string().into_bytes());
}

#[test]
fn track_lengths_grow_and_stay_bounded() {
    let frames = vec![vec![(0, 0), (9, 9)], vec![(1, 1), (8, 8)], vec![], vec![(2, 2)]];
    let mut t = Tracker::new();
    let mut prev: Vec<usize> = Vec::new();
    for (i, f) in frames.iter().enumerate() {
        t.process_frame(f);
        let lens: Vec<usize> = t.tracks.iter().map(|p| p.len()).collect();
        for (j, l) in prev.iter().enumerate() {
            assert!(lens[j] >= *l);
        }
        assert!(lens.iter().all(|l| *l <= i + 1));
        prev = lens;
    }
    assert_eq!(prev, vec![3, 2]);
}

#[test]
fn analyze_marks_and_tracks() {
    let red = ColorObj::new(255, 0, 0);
    let mut frames = Vec::new();
    for (cx, cy) in [(2u32, 2u32), (2, 3)] {
        let mut raw = vec![0u8; 8 * 8 * 3];
        for x in cx - 1..=cx + 1 {
            for y in cy - 1..=cy + 1 {
                let i = ((y * 8 + x) * 3) as usize;
                raw[i] = 240;
                raw[i + 1] = 10;
            }
        }
        frames.push(Frame::from_rgb(8, 8, &raw).unwrap());
    }
    let a = analyze(&frames, red, 50, DEFAULT_RADIUS);
    assert_eq!(a.centroids, vec![vec![(2, 2)], vec![(2, 3)]]);
    assert_eq!(a.tracks, vec![vec![(0, (2, 2)), (1, (2, 3))]]);
    assert_eq!(a.annotated[1].get_pixel(2, 3), marker_color());
    assert_eq!(a.annotated[1].get_pixel(2, 2), foreground_color());
    assert_eq!(a.masks[0].get_pixel(0, 0), background_color());
}

#[test]
fn cluster_seeds_follow_scan_order() {
    // Columns are scanned left to right, rows top to bottom within a column.
    let m = mask(10, 10, &[(8, 0), (3, 7), (3, 2), (0, 9)]);
    let clusters = extract_clusters(&m, DEFAULT_RADIUS);
    let seeds: Vec<(u32, u32)> = clusters.iter().map(|c| c[0]).collect();
    assert_eq!(seeds, vec![(0, 9), (3, 2), (3, 7), (8, 0)]);
    assert_eq!(detect_centroids(&m, DEFAULT_RADIUS), vec![(0, 9), (3, 2), (3, 7), (8, 0)]);
}

#[test]
fn annotate_marks_only_given_points() {
    let m = mask(3, 3, &[(1, 1)]);
    let a = m.annotate(&vec![(0, 2), (1, 1)]);
    assert_eq!(a.get_pixel(0, 2), marker_color());
    assert_eq!(a.get_pixel(1, 1), marker_color());
    assert_eq!(a.get_pixel(2, 2), background_color());
    assert_eq!(a.pixels.iter().filter(|p| **p == marker_color()).count(), 2);
}

#[test]
fn export_blanks_a_frame_that_a_track_missed() {
    let tracks = track_centroids(&vec![vec![(0, 0), (9, 9)], vec![(1, 1)], vec![(2, 2), (8, 8)]]);
    assert_eq!(
        tracks,
        vec![vec![(0, (0, 0)), (1, (1, 1)), (2, (2, 2))], vec![(0, (9, 9)), (2, (8, 8))]]
    );
    let csv = export_csv(&tracks, 3);
    assert_eq!(
        String::from_utf8(csv).unwrap(),
        "pointx_0, pointy_0,pointx_1, pointy_1,\n0,0,9,9,\n1,1,,,\n2,2,8,8,\n"
    );
}

#[test]
fn export_shows_first_of_several_detections_in_a_frame() {
    let tracks = track_centroids(&vec![vec![(0, 0), (5, 0)], vec![(0, 0), (1, 0)], vec![(5, 0)]]);
    assert_eq!(
        tracks,
        vec![vec![(0, (0, 0)), (1, (0, 0)), (1, (1, 0))], vec![(0, (5, 0)), (2, (5, 0))]]
    );
    assert_eq!(row_record(&tracks, 1), vec![b"0".to_vec(), b"0".to_vec(), Vec::new(), Vec::new(), Vec::new()]);
    let csv = export_csv(&tracks, 3);
    assert_eq!(
        String::from_utf8(csv).unwrap(),
        "pointx_0, pointy_0,pointx_1, pointy_1,\n0,0,5,0,\n0,0,,,\n,,5,0,\n"
    );
}

#[test]
fn encode_records_plain_and_quoted() {
    let records = vec![
        vec![b"a".to_vec(), b" b".to_vec(), Vec::new()],
        vec![b"x,y".to_vec(), b"q\"".to_vec()],
        vec![Vec::new()],
    ];
    assert_eq!(
        String::from_utf8(encode_records(&records)).unwrap(),
        "a, b,\n\"x,y\",\"q\"\"\"\n\"\"\n"
    );
}
