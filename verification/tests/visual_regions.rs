use wafflematrix::visual::align::matching_line_pairs;
use wafflematrix::report::{DiffEntry, DiffKind, PageStatus, Rect};
use wafflematrix::visual::clusters::cluster_groups;
use wafflematrix::visual::mask::erode_mask;
use wafflematrix::visual::page::{compare_hybrid_page, compare_visual_page, covered_rects, visual_entry};
use wafflematrix::visual::regions::{pixel_regions, PixelBox};

const MIN_REGION_AREA: usize = 8;

fn rect(l: f32, t: f32, r: f32, b: f32) -> Rect {
    Rect::from_bits(l.to_bits(), t.to_bits(), r.to_bits(), b.to_bits())
}

fn coords(r: &Rect) -> (f32, f32, f32, f32) {
    (f32::from_bits(r.left), f32::from_bits(r.top), f32::from_bits(r.right), f32::from_bits(r.bottom))
}

/// A solid image of one value with the given pixels set to another.
fn image(w: usize, h: usize, set: &[(usize, usize)]) -> Vec<u8> {
    let mut img = vec![255u8; w * h];
    for &(x, y) in set {
        img[y * w + x] = 0;
    }
    img
}

/// The regions where two images differ: raw difference, erosion, flood fill.
fn diff_regions(a: &[u8], b: &[u8], w: usize, h: usize) -> Vec<PixelBox> {
    let raw: Vec<bool> = a.iter().zip(b.iter()).map(|(p, q)| p != q).collect();
    let mask = erode_mask(&raw, w, h);
    pixel_regions(&mask, w, h, MIN_REGION_AREA)
}

fn near(a: &Rect, b: &Rect, gap: f64) -> bool {
    let (al, at, ar, ab) = coords(a);
    let (bl, bt, br, bb) = coords(b);
    let gap_x = (al.max(bl) - ar.min(br)).max(0.0) as f64;
    let gap_y = (at.max(bt) - ab.min(bb)).max(0.0) as f64;
    gap_x <= gap && gap_y <= gap
}

/// Cluster rectangles and return the union box of each cluster.
fn merge(rs: &[Rect], gap: f64) -> Vec<(f32, f32, f32, f32)> {
    let n = rs.len();
    let mut m = vec![vec![false; n]; n];
    for i in 0..n {
        for j in (i + 1)..n {
            m[i][j] = near(&rs[i], &rs[j], gap);
        }
    }
    cluster_groups(&m)
        .iter()
        .map(|g| {
            g.iter().fold((f32::MAX, f32::MAX, f32::MIN, f32::MIN), |u, &k| {
                let (l, t, r, b) = coords(&rs[k]);
                (u.0.min(l), u.1.min(t), u.2.max(r), u.3.max(b))
            })
        })
        .collect()
}

#[test]
fn identical_images_have_no_regions() {
    let a = image(64, 64, &[]);
    assert!(diff_regions(&a, &a, 64, 64).is_empty());
}

#[test]
fn single_white_patch_differs() {
    let a = image(64, 64, &[]);
    let mut patch = Vec::new();
    for y in 10..20 {
        for x in 30..50 {
            patch.push((x, y));
        }
    }
    let b = image(64, 64, &patch);
    let regions = diff_regions(&a, &b, 64, 64);
    assert_eq!(regions.len(), 1);
    let r = regions[0];
    assert!(r.max_x + 1 > r.min_x && r.max_y + 1 > r.min_y);
    assert_eq!(r, PixelBox { min_x: 30, min_y: 10, max_x: 49, max_y: 19, area: 200 });
}

#[test]
fn isolated_pixel_noise_is_ignored() {
    let a = image(64, 64, &[]);
    let b = image(64, 64, &[(32, 32)]);
    assert!(diff_regions(&a, &b, 64, 64).is_empty());
}

#[test]
fn nearby_fragments_are_merged_into_one_region() {
    let regions = merge(
        &[rect(10.0, 10.0, 12.0, 12.0), rect(13.0, 10.2, 15.0, 12.1), rect(50.0, 10.0, 52.0, 12.0)],
        6.0,
    );
    assert_eq!(regions.len(), 2);
    assert!(regions[0].0 <= 10.0 && regions[0].2 >= 15.0);
}

#[test]
fn separated_lines_are_not_merged() {
    let regions = merge(&[rect(10.0, 10.0, 20.0, 12.0), rect(10.0, 22.0, 20.0, 24.0)], 6.0);
    assert_eq!(regions.len(), 2);
}

#[test]
fn erosion_keeps_pixels_with_two_set_neighbours() {
    // A row of three pixels: the middle one has two set neighbours, the ends one.
    let w = 5;
    let h = 3;
    let mut m = vec![false; w * h];
    for x in 1..4 {
        m[w + x] = true;
    }
    let e = erode_mask(&m, w, h);
    assert_eq!(e.iter().filter(|b| **b).count(), 1);
    assert!(e[w + 2]);
    // Two lone pixels side by side have one set neighbour each: both go.
    let mut p = vec![false; w * h];
    p[w + 1] = true;
    p[w + 2] = true;
    assert!(erode_mask(&p, w, h).iter().all(|b| !b));
    // An L of three pixels gives each pixel two set neighbours: all stay.
    let mut l = vec![false; w * h];
    for &(x, y) in &[(1, 0), (2, 0), (1, 1)] {
        l[y * w + x] = true;
    }
    assert_eq!(erode_mask(&l, w, h).iter().filter(|b| **b).count(), 3);
}

#[test]
fn regions_are_listed_in_raster_order_of_first_pixel() {
    let w = 8;
    let h = 4;
    let mut m = vec![false; w * h];
    // region A: column 6, rows 0..3 (first pixel (6, 0))
    for y in 0..3 {
        m[y * w + 6] = true;
    }
    // region B: an L from (1, 1): first pixel comes after (6, 0)
    for &(x, y) in &[(1, 1), (1, 2), (2, 2), (3, 2)] {
        m[y * w + x] = true;
    }
    let regions = pixel_regions(&m, w, h, 1);
    assert_eq!(
        regions,
        vec![
            PixelBox { min_x: 6, min_y: 0, max_x: 6, max_y: 2, area: 3 },
            PixelBox { min_x: 1, min_y: 1, max_x: 3, max_y: 2, area: 4 },
        ]
    );
    // With a larger minimum the small region is dropped.
    assert_eq!(pixel_regions(&m, w, h, 4).len(), 1);
}

#[test]
fn diagonal_pixels_are_separate_regions() {
    let w = 3;
    let h = 3;
    let mut m = vec![false; w * h];
    m[0] = true;
    m[w + 1] = true;
    assert_eq!(pixel_regions(&m, w, h, 1).len(), 2);
}

#[test]
fn clusters_are_named_by_the_later_region() {
    // 0-2 and 1-3 are near, then 2-3 joins the two clusters.
    let mut m = vec![vec![false; 4]; 4];
    m[0][2] = true;
    m[1][3] = true;
    m[2][3] = true;
    assert_eq!(cluster_groups(&m), vec![vec![0, 1, 2, 3]]);
    let empty: Vec<Vec<bool>> = vec![];
    assert!(cluster_groups(&empty).is_empty());
    assert_eq!(cluster_groups(&vec![vec![false; 3]; 3]), vec![vec![0], vec![1], vec![2]]);
}

#[test]
fn cluster_order_follows_the_cluster_root() {
    // 0 joins 2 (root 2); 1 stays alone (root 1): cluster of 1 comes first.
    let mut m = vec![vec![false; 3]; 3];
    m[0][2] = true;
    assert_eq!(cluster_groups(&m), vec![vec![1], vec![0, 2]]);
}

fn change(kind: DiffKind, old: Option<Rect>, new: Option<Rect>) -> DiffEntry {
    DiffEntry {
        kind,
        old_line: None,
        new_line: None,
        old_text: None,
        new_text: None,
        old_rect: old,
        new_rect: new,
        visual_rects: vec![],
    }
}

#[test]
fn visual_page_reports_each_region() {
    let r = rect(1.0, 2.0, 3.0, 4.0);
    let page = compare_visual_page(&vec![r], 2);
    assert_eq!(page.page_index, 2);
    assert_eq!(page.status, PageStatus::Modified);
    assert_eq!(page.entries.len(), 1);
    assert_eq!(page.entries[0].kind, DiffKind::Modified);
    assert_eq!(page.entries[0].new_rect, Some(r));
    assert_eq!(page.entries[0].visual_rects, vec![r]);
    assert_eq!(compare_visual_page(&vec![], 0).status, PageStatus::Match);
    assert_eq!(visual_entry(&r).old_rect, None);
}

#[test]
fn hybrid_page_skips_covered_regions() {
    let a = rect(0.0, 0.0, 10.0, 10.0);
    let b = rect(20.0, 0.0, 30.0, 10.0);
    let text = vec![
        change(DiffKind::Unchanged, Some(b), Some(b)),
        change(DiffKind::Modified, Some(a), None),
    ];
    assert_eq!(covered_rects(&text), vec![a]);
    let page = compare_hybrid_page(text, &vec![a, b], &vec![true, false], 0);
    assert_eq!(page.entries.len(), 3);
    assert_eq!(page.entries[2].new_rect, Some(b));
    assert_eq!(page.status, PageStatus::Modified);
}

#[test]
fn hybrid_page_without_changes_matches() {
    let text = vec![change(DiffKind::Unchanged, None, None)];
    let page = compare_hybrid_page(text, &vec![], &vec![], 1);
    assert_eq!(page.status, PageStatus::Match);
}

#[test]
fn lines_pair_by_collapsed_lower_case_text() {
    let s = |v: &[&str]| v.iter().map(|x| x.to_string()).collect::<Vec<String>>();
    let old = s(&["Alpha  One", "", "beta", "   "]);
    let new = s(&["alpha one", "BETA", " Alpha\tONE ", ""]);
    assert_eq!(matching_line_pairs(&old, &new), vec![(0, 0), (0, 2), (2, 1)]);
    assert!(matching_line_pairs(&old, &Vec::new()).is_empty());
}
