use scuisei_rs::meanalysis::{
    build_motion_analysis_plan, run_superblock_motion_analysis, small_frame_meanalysis,
    superblock_indices,
};
use scuisei_rs::motion::{
    dev_block, find_best_match_for_block, sad16x16_with_cutoff, search_superblock_matches,
    BlockPair, SuperblockEvalContext,
};
use scuisei_rs::simd_metrics::{
    downscale_gray8_nearest, frame_pair_metrics, grid_histogram_16,
    grid_histogram_distance_16_from_hists, grid_histogram_median_cell_distance_16_from_hists,
    histogram_16, histogram_distance_16_from_hists, meanalysis_xvid_like, sad_u8, Dissimilarity,
    DownscalePlan, GridHistogramPlan, MeAnalysis, MedianDissimilarity, MotionPlanCache,
    GRID_HIST_LEN,
};

fn make_frame(len: usize, offset: usize) -> Vec<u8> {
    (0..len).map(|idx| u8::try_from((idx + offset) % 256).unwrap_or(0)).collect()
}

fn distance(parts: Dissimilarity) -> f64 {
    if parts.total == 0 {
        return 0.0;
    }
    (1.0 - parts.overlap as f64 / parts.total as f64).clamp(0.0, 1.0)
}

fn scalar_histogram_distance_16(prev: &[u8], curr: &[u8]) -> f64 {
    if prev.len() != curr.len() || prev.is_empty() {
        return 0.0;
    }
    let intersection: u64 = histogram_16(prev)
        .into_iter()
        .zip(histogram_16(curr))
        .map(|(a, b)| u64::from(a.min(b)))
        .sum();
    (1.0 - intersection as f64 / prev.len() as f64).clamp(0.0, 1.0)
}

#[test]
fn histogram_distance_matches_cached_path() {
    let prev = make_frame(4096, 0);
    let curr = make_frame(4096, 7);

    let direct = scalar_histogram_distance_16(&prev, &curr);
    let prev_hist = histogram_16(&prev);
    let curr_hist = histogram_16(&curr);
    let cached = distance(histogram_distance_16_from_hists(&prev_hist, &curr_hist, prev.len()));

    assert!((direct - cached).abs() < 1e-12);
}

#[test]
fn histogram_distance_zero_on_identical() {
    let frame = make_frame(2048, 0);
    let hist = histogram_16(&frame);
    assert!(scalar_histogram_distance_16(&frame, &frame).abs() < f64::EPSILON);
    let parts = histogram_distance_16_from_hists(&hist, &hist, frame.len());
    assert!(distance(parts).abs() < f64::EPSILON);
    assert_eq!(parts, Dissimilarity { overlap: 2048, total: 2048 });
}

#[test]
fn grid_histogram_distance_zero_on_identical() {
    let width: usize = 64;
    let height: usize = 48;
    let frame = make_frame(width * height, 0);
    let prev = grid_histogram_16(&frame, width, height);
    let curr = grid_histogram_16(&frame, width, height);
    let parts = grid_histogram_distance_16_from_hists(&prev, &curr, frame.len());
    assert!(distance(parts).abs() < f64::EPSILON);
    match grid_histogram_median_cell_distance_16_from_hists(&prev, &curr) {
        MedianDissimilarity::Between(lower, upper) => {
            assert_eq!(lower.overlap, lower.total);
            assert_eq!(upper.overlap, upper.total);
        }
        other => panic!("sixteen cells have two in the middle: {other:?}"),
    }
}

#[test]
fn downscale_plan_matches_direct_path() {
    let src_width: usize = 64;
    let src_height: usize = 48;
    let dst_width: usize = 17;
    let dst_height: usize = 11;
    let frame = make_frame(src_width * src_height, 3);

    let mut direct = Vec::new();
    downscale_gray8_nearest(&frame, src_width, src_height, dst_width, dst_height, &mut direct);

    let mut planned = Vec::new();
    DownscalePlan::new(src_width, src_height, dst_width, dst_height).run(&frame, &mut planned);

    assert_eq!(planned, direct);
}

#[test]
fn grid_histogram_plan_matches_direct_path() {
    let width: usize = 96;
    let height: usize = 54;
    let frame = make_frame(width * height, 11);

    let direct = grid_histogram_16(&frame, width, height);
    let planned = GridHistogramPlan::new(width, height).run(&frame);

    assert_eq!(planned, direct);
}

#[test]
fn accumulated_frame_metrics_match_separate_paths() {
    let width: usize = 96;
    let height: usize = 54;
    let prev = make_frame(width * height, 5);
    let curr = make_frame(width * height, 17);
    let plan = GridHistogramPlan::new(width, height);

    let combined = plan.accumulate_frame_metrics(Some(&prev), &curr);

    assert_eq!(combined.sad, sad_u8(&prev, &curr));
    assert_eq!(combined.hist, histogram_16(&curr));
    assert_eq!(combined.grid_hist, plan.run(&curr));
    assert!(combined.sad > 0);

    let again = frame_pair_metrics(Some(&prev), &curr, &plan);
    assert_eq!(again.sad, combined.sad);
    assert_eq!(again.hist, combined.hist);
    assert_eq!(again.grid_hist, combined.grid_hist);
}

#[test]
fn cutoff_sad_matches_full_sad_when_not_cut() {
    let width: usize = 64;
    let height: usize = 64;
    let prev = make_frame(width * height, 0);
    let curr = make_frame(width * height, 9);

    let pair = BlockPair { curr_x: 16, curr_y: 16, prev_x: 16, prev_y: 16 };
    let full = sad16x16_with_cutoff(&prev, &curr, width, pair, u32::MAX);
    let cutoff = sad16x16_with_cutoff(&prev, &curr, width, pair, full);

    assert_eq!(cutoff, full);
}

#[test]
fn dev_block_histogram_matches_scalar_baseline() {
    let width: usize = 64;
    let height: usize = 64;
    let curr = make_frame(width * height, 13);

    let scalar = {
        let mut sum: u32 = 0;
        for y in 0..16_usize {
            let row = (8 + y) * width;
            for x in 0..16_usize {
                sum = sum.saturating_add(u32::from(curr[row + 12 + x]));
            }
        }

        let mean = sum / 256;
        let mut dev = 0_u32;
        for y in 0..16_usize {
            let row = (8 + y) * width;
            for x in 0..16_usize {
                dev = dev.saturating_add(u32::from(curr[row + 12 + x]).abs_diff(mean));
            }
        }
        dev
    };

    assert_eq!(dev_block(&curr, width, 12, 8, 16, 16), scalar);
}

#[test]
fn meanalysis_handles_three_macroblock_dimensions() {
    let width: usize = 33;
    let height: usize = 33;
    let prev = vec![0_u8; width * height];
    let curr = vec![255_u8; width * height];

    let mut plans = MotionPlanCache::new(1);
    let analysis = meanalysis_xvid_like(&prev, &curr, width, height, 4, 2000, &mut plans);
    assert!(analysis.total_blocks > 0);
    assert!(analysis.intra_blocks <= analysis.total_blocks);
    assert!(analysis.score > 0 || analysis.intra_blocks > 0);

    // One block: 256 pixels that differ by 255, over 2 + 4 * 20.
    assert_eq!(analysis.total_blocks, 1);
    assert_eq!(analysis.intra_blocks, 1);
    assert_eq!(analysis.mc_sad, 65_280);
    assert_eq!(analysis.score, 796);
}

fn same(a: MeAnalysis, b: MeAnalysis) -> bool {
    a.score == b.score
        && a.intra_blocks == b.intra_blocks
        && a.total_blocks == b.total_blocks
        && a.mc_sad == b.mc_sad
}

#[test]
fn meanalysis_cached_plan_matches_fresh_plan() {
    let width: usize = 160;
    let height: usize = 96;
    let prev = make_frame(width * height, 7);
    let curr = make_frame(width * height, 19);

    let mut plans = MotionPlanCache::new(1);
    let first = meanalysis_xvid_like(&prev, &curr, width, height, 4, 2000, &mut plans);
    let cached = meanalysis_xvid_like(&prev, &curr, width, height, 4, 2000, &mut plans);
    let plan = build_motion_analysis_plan(width, height, 4, 1).expect("large enough for a plan");
    let fresh = run_superblock_motion_analysis(&prev, &curr, 2000, &plan);

    assert_eq!(cached.total_blocks, fresh.total_blocks);
    assert_eq!(cached.intra_blocks, fresh.intra_blocks);
    assert_eq!(cached.mc_sad, fresh.mc_sad);
    assert_eq!(cached.score, fresh.score);
    assert!(same(first, cached));
}

#[test]
fn parallel_rows_add_up_like_rows_in_turn() {
    let width: usize = 320;
    let height: usize = 192;
    let prev = make_frame(width * height, 7);
    let curr: Vec<u8> = make_frame(width * height, 101).into_iter().rev().collect();

    let mut one = MotionPlanCache::new(1);
    let mut many = MotionPlanCache::new(8);
    let in_turn = meanalysis_xvid_like(&prev, &curr, width, height, 2, 500, &mut one);
    let parallel = meanalysis_xvid_like(&prev, &curr, width, height, 2, 500, &mut many);

    assert!(in_turn.mc_sad > 0);
    assert!(same(in_turn, parallel));
}

#[test]
fn identical_frames_need_no_motion() {
    let width: usize = 160;
    let height: usize = 96;
    let frame = make_frame(width * height, 7);
    let mut plans = MotionPlanCache::new(4);
    let analysis = meanalysis_xvid_like(&frame, &frame, width, height, 4, 2000, &mut plans);
    assert_eq!(analysis.intra_blocks, 0);
    assert_eq!(analysis.total_blocks, 8 * 4);

    let small = make_frame(33 * 40, 7);
    let analysis = small_frame_meanalysis(&small, &small, 33, 40, 4, 2000);
    assert_eq!(analysis.total_blocks, 1);
    assert_eq!(analysis.intra_blocks, 0);
}

#[test]
fn frames_below_three_macroblocks_are_not_analysed() {
    let frame = vec![9_u8; 32 * 200];
    let mut plans = MotionPlanCache::new(1);
    let analysis = meanalysis_xvid_like(&frame, &frame, 32, 200, 4, 2000, &mut plans);
    assert_eq!((analysis.score, analysis.intra_blocks, analysis.total_blocks), (0, 0, 0));
    assert!(build_motion_analysis_plan(32, 200, 4, 1).is_none());
}

#[test]
fn superblocks_start_at_every_second_macroblock() {
    assert_eq!(superblock_indices(2), Vec::<usize>::new());
    assert_eq!(superblock_indices(3), vec![1]);
    assert_eq!(superblock_indices(4), vec![1]);
    assert_eq!(superblock_indices(5), vec![1]);
    assert_eq!(superblock_indices(6), vec![1, 3]);
    assert_eq!(superblock_indices(10), vec![1, 3, 5, 7]);
}

#[test]
fn motion_search_finds_the_displacement() {
    let width: usize = 80;
    let height: usize = 80;
    let prev: Vec<u8> = (0..width * height)
        .map(|i| u8::try_from((i % width * 7 + i / width * 13) % 251).unwrap_or(0))
        .collect();
    // The picture moves two to the right and one down.
    let mut curr = prev.clone();
    for y in 1..height {
        for x in 2..width {
            curr[y * width + x] = prev[(y - 1) * width + x - 2];
        }
    }
    let context = SuperblockEvalContext {
        prev: &prev,
        curr: &curr,
        width,
        search_radius: 4,
        intra_thresh_u32: 2000,
        max_horizontal_limit: width - 32,
        max_vertical_limit: height - 32,
    };
    for found in search_superblock_matches(&context, 16, 16) {
        assert_eq!((found.sad, found.dx, found.dy), (0, -2, -1));
    }
    let context = SuperblockEvalContext {
        max_horizontal_limit: width - 16,
        max_vertical_limit: height - 16,
        ..context
    };
    let found = find_best_match_for_block(&context, 16, 16);
    assert_eq!((found.sad, found.dx, found.dy), (0, -2, -1));
}

#[test]
fn differences_are_summed_with_and_without_full_lanes() {
    assert_eq!(sad_u8(&[1, 2, 3], &[3, 2, 1]), 4);
    assert_eq!(sad_u8(&[0; 33], &[255; 33]), 33 * 255);
    assert_eq!(sad_u8(&[200; 16], &[10; 16]), 16 * 190);
    assert_eq!(sad_u8(&[10; 16], &[200; 16]), 16 * 190);
    assert_eq!(sad_u8(&[1, 2, 3], &[1, 2]), 0);
    assert_eq!(sad_u8(&[], &[]), 0);
    let mut a = [0_u8; 32];
    let b = a;
    a[3] = 5;
    a[12] = 7;
    a[31] = 9;
    assert_eq!(sad_u8(&a, &b), 21);
    assert_eq!(sad_u8(&b, &a), 21);
    assert_eq!(sad_u8(&a, &a), 0);
}

#[test]
fn histograms_count_brightness_classes() {
    let hist = histogram_16(&[0, 15, 16, 255, 240, 128]);
    let mut expected = [0_u32; 16];
    expected[0] = 2;
    expected[1] = 1;
    expected[15] = 2;
    expected[8] = 1;
    assert_eq!(hist, expected);
}

#[test]
fn grid_histograms_count_by_cell() {
    // Eight by four pixels: cells are two pixels wide and one high.
    let mut frame = vec![0_u8; 32];
    frame[0] = 255;
    frame[9] = 100;
    frame[31] = 17;
    let hist = grid_histogram_16(&frame, 8, 4);
    assert_eq!(hist.iter().sum::<u32>(), 32);
    assert_eq!(hist[15], 1);
    assert_eq!(hist[0], 1);
    assert_eq!(hist[64 + 6], 1);
    assert_eq!(hist[64], 1);
    assert_eq!(hist[3 * 64 + 3 * 16 + 1], 1);
    assert_eq!(hist[3 * 64 + 3 * 16], 1);
    assert_eq!(hist[2 * 64], 2);
}

#[test]
fn short_or_empty_frames_are_not_counted() {
    assert_eq!(grid_histogram_16(&[1, 2, 3], 2, 2), [0_u32; GRID_HIST_LEN]);
    assert_eq!(grid_histogram_16(&[1, 2, 3], 0, 2), [0_u32; GRID_HIST_LEN]);
    let plan = GridHistogramPlan::new(0, 5);
    assert_eq!(plan.dimensions(), (0, 0));
    assert_eq!(GridHistogramPlan::new(5, 0).dimensions(), (5, 0));
    assert_eq!(GridHistogramPlan::new(5, 7).dimensions(), (5, 7));
    let plan = GridHistogramPlan::new(2, 2);
    let metrics = plan.accumulate_frame_metrics(Some(&[1, 2, 3, 4]), &[1, 2, 3]);
    assert_eq!((metrics.sad, metrics.hist), (0, [0_u32; 16]));
    // A frame before it that is too short is as none.
    let metrics = plan.accumulate_frame_metrics(Some(&[1, 2, 3]), &[9, 9, 9, 9]);
    assert_eq!((metrics.sad, metrics.hist[0]), (0, 4));
    let metrics = plan.accumulate_frame_metrics(None, &[9, 9, 9, 9]);
    assert_eq!((metrics.sad, metrics.hist[0]), (0, 4));
}

#[test]
fn reduced_planes_take_the_nearest_pixel() {
    let src: Vec<u8> = (0..16).collect();
    let mut dst = vec![77_u8; 3];
    downscale_gray8_nearest(&src, 4, 4, 2, 2, &mut dst);
    assert_eq!(dst, vec![0, 2, 8, 10]);
    downscale_gray8_nearest(&src, 4, 4, 3, 1, &mut dst);
    assert_eq!(dst, vec![0, 1, 2]);
    downscale_gray8_nearest(&[5], 1, 1, 2, 2, &mut dst);
    assert_eq!(dst, vec![5, 5, 5, 5]);
    // The last rows of the source are never looked at here.
    downscale_gray8_nearest(&src[..11], 4, 4, 2, 2, &mut dst);
    assert_eq!(dst, vec![0, 2, 8, 10]);
}

#[test]
fn planes_without_pixels_give_empty_or_padded_buffers() {
    let mut dst = vec![7_u8, 8];
    DownscalePlan::new(0, 4, 2, 2).run(&[], &mut dst);
    assert_eq!(dst, vec![7, 8, 0, 0]);
    DownscalePlan::new(4, 4, 0, 2).run(&[0; 16], &mut dst);
    assert!(dst.is_empty());
    assert_eq!(DownscalePlan::new(4, 4, 0, 2).dst_dimensions(), (0, 2));
}

#[test]
fn dissimilarity_counts_what_is_alike() {
    let mut prev = [0_u32; 16];
    let mut curr = [0_u32; 16];
    prev[0] = 6;
    prev[9] = 4;
    curr[0] = 3;
    curr[9] = 5;
    curr[1] = 2;
    let parts = histogram_distance_16_from_hists(&prev, &curr, 10);
    assert_eq!(parts, Dissimilarity { overlap: 7, total: 10 });
    assert_eq!(
        histogram_distance_16_from_hists(&prev, &curr, 0),
        Dissimilarity { overlap: 0, total: 0 }
    );
}

#[test]
fn median_cell_is_found_by_exact_ratio() {
    let empty = [0_u32; GRID_HIST_LEN];
    assert_eq!(
        grid_histogram_median_cell_distance_16_from_hists(&empty, &empty),
        MedianDissimilarity::Absent
    );
    let mut prev = empty;
    let mut curr = empty;
    // Three cells: alike in 1 of 4, in 3 of 4, and in 1 of 2.
    prev[0] = 4;
    curr[0] = 1;
    prev[16] = 4;
    curr[16] = 3;
    prev[32] = 2;
    curr[32] = 1;
    assert_eq!(
        grid_histogram_median_cell_distance_16_from_hists(&prev, &curr),
        MedianDissimilarity::Middle(Dissimilarity { overlap: 1, total: 2 })
    );
    // A fourth, alike in all.
    prev[48] = 5;
    curr[48] = 9;
    assert_eq!(
        grid_histogram_median_cell_distance_16_from_hists(&prev, &curr),
        MedianDissimilarity::Between(
            Dissimilarity { overlap: 3, total: 4 },
            Dissimilarity { overlap: 1, total: 2 }
        )
    );
    assert_eq!(
        grid_histogram_distance_16_from_hists(&prev, &curr, 15),
        Dissimilarity { overlap: 10, total: 15 }
    );
}

#[test]
fn plans_are_equal_where_they_take_the_same_bytes() {
    assert_eq!(DownscalePlan::new(4, 4, 1, 1), DownscalePlan::new(5, 4, 1, 1));
    assert_eq!(DownscalePlan::new(0, 4, 3, 3), DownscalePlan::new(7, 0, 3, 3));
    assert_eq!(DownscalePlan::new(9, 7, 4, 3), DownscalePlan::new(9, 7, 4, 3));
    assert_eq!(DownscalePlan::new(9, 7, 4, 3), DownscalePlan::new(9, 7, 4, 3).clone());
    // The columns are the same, and the rows start elsewhere.
    assert_ne!(DownscalePlan::new(4, 4, 2, 2), DownscalePlan::new(5, 4, 2, 2));
    assert_ne!(DownscalePlan::new(4, 4, 2, 1), DownscalePlan::new(8, 4, 2, 1));
    assert_ne!(DownscalePlan::new(4, 4, 1, 1), DownscalePlan::new(4, 4, 1, 2));
    assert_ne!(DownscalePlan::new(0, 4, 1, 1), DownscalePlan::new(4, 4, 1, 1));
}
