use k_clustering::Color;
use k_clustering::Image;
use k_clustering::KMeansSegmentation;
use k_clustering::Rgba;

fn rgb(r: u8, g: u8, b: u8) -> Color {
    Color { r, g, b }
}

fn rgba(r: u8, g: u8, b: u8, a: u8) -> Rgba {
    Rgba { r, g, b, a }
}

fn make_image(width: usize, height: usize, pixels: Vec<Color>) -> Image {
    Image::new(width, height, pixels).expect("valid image")
}

#[test]
fn overlay_color_paints_centroids() {
    let img = make_image(
        2,
        2,
        vec![rgb(255, 0, 0), rgb(255, 0, 0), rgb(0, 0, 255), rgb(0, 0, 255)],
    );
    let mut kms = KMeansSegmentation::new(img, 2);
    kms.iteration();
    let out = kms.overlay_color();
    assert_eq!(out.width, 2);
    assert_eq!(out.height, 2);
    // every pixel belongs to cluster 0, whose mean color is (102, 0, 102)
    assert_eq!(out.pixels, vec![rgba(102, 0, 102, 255); 4]);
}

#[test]
fn overlay_color_unassigned_is_black() {
    let img = make_image(1, 2, vec![rgb(50, 60, 70), rgb(1, 2, 3)]);
    let kms = KMeansSegmentation::new(img, 2);
    // before any pass every assignment is absent
    let out = kms.overlay_color();
    assert_eq!(out.pixels, vec![rgba(0, 0, 0, 255); 2]);
}

#[test]
fn overlay_rescales_extremes() {
    let img = make_image(
        2,
        2,
        vec![rgb(255, 0, 0), rgb(255, 0, 0), rgb(0, 0, 255), rgb(0, 0, 255)],
    );
    let mut kms = KMeansSegmentation::new(img, 2);
    kms.iteration();
    // centroid reds are 102 and 0, so the observed range is [0, 102]; every
    // pixel's centroid red is 102, the maximum, which rescales to 255
    let out = kms.overlay();
    assert_eq!(out.pixels, vec![rgba(255, 255, 255, 255); 4]);
}

#[test]
fn overlay_degenerate_red_range_is_mid_gray() {
    // a single cluster gives a single centroid red value: the observed
    // minimum and maximum coincide and the linear map must not run
    let img = make_image(1, 1, vec![rgb(10, 0, 0)]);
    let mut kms = KMeansSegmentation::new(img, 1);
    kms.iteration();
    assert_eq!(kms.mean_colors[0], rgb(5, 0, 0));
    let out = kms.overlay();
    assert_eq!(out.pixels, vec![rgba(127, 127, 127, 255)]);
}

#[test]
fn overlay_without_clusters_is_mid_gray() {
    let img = make_image(2, 1, vec![rgb(200, 200, 200), rgb(3, 3, 3)]);
    let mut kms = KMeansSegmentation::new(img, 0);
    kms.iteration();
    let out = kms.overlay();
    assert_eq!(out.pixels, vec![rgba(127, 127, 127, 255); 2]);
}

#[test]
fn overlay_mid_range_centroid_is_mid_gray() {
    // three clusters whose reds span [0, 255] with one strictly inside:
    // pixels of the inside cluster paint mid-gray, the extremes rescale to
    // near-black and near-white
    let img = make_image(
        3,
        1,
        vec![rgb(255, 255, 255), rgb(0, 0, 0), rgb(128, 128, 128)],
    );
    let mut kms = KMeansSegmentation::new(img, 3);
    let mut guard = 0;
    while kms.iteration() > 0 {
        guard += 1;
        assert!(guard < 1000);
    }
    let reds: Vec<u8> = kms.mean_colors.iter().map(|c| c.r).collect();
    let mn = *reds.iter().min().unwrap();
    let mx = *reds.iter().max().unwrap();
    let out = kms.overlay();
    for (i, a) in kms.cluster_assignment.iter().enumerate() {
        let gray = kms.mean_colors[(*a).unwrap()].r;
        if gray == mn && mn != mx {
            assert_eq!(out.pixels[i], rgba(0, 0, 0, 255));
        } else if gray == mx && mn != mx {
            assert_eq!(out.pixels[i], rgba(255, 255, 255, 255));
        } else {
            assert_eq!(out.pixels[i], rgba(127, 127, 127, 255));
        }
    }
}

#[test]
fn overlay_absent_is_mid_gray_even_at_extreme_red() {
    // an unassigned pixel always renders mid-gray, even when some centroid's
    // red channel is exactly 127 and the observed red range is proper
    let img = make_image(1, 1, vec![rgb(0, 0, 0)]);
    let kms = KMeansSegmentation {
        n_clusters: 2,
        image: img,
        mean_colors: vec![rgb(127, 0, 0), rgb(200, 0, 0)],
        cluster_assignment: vec![None],
    };
    let out = kms.overlay();
    assert_eq!(out.pixels, vec![rgba(127, 127, 127, 255)]);
}

#[test]
fn overlay_assigned_extremes_rescale() {
    // assigned pixels at the observed extremes rescale to 0 and 255, even
    // when the minimum red happens to be 127
    let img = make_image(2, 1, vec![rgb(0, 0, 0), rgb(0, 0, 0)]);
    let kms = KMeansSegmentation {
        n_clusters: 2,
        image: img,
        mean_colors: vec![rgb(127, 0, 0), rgb(200, 0, 0)],
        cluster_assignment: vec![Some(0), Some(1)],
    };
    let out = kms.overlay();
    assert_eq!(out.pixels[0], rgba(0, 0, 0, 255));
    assert_eq!(out.pixels[1], rgba(255, 255, 255, 255));
}

#[test]
fn cdist_is_squared_euclidean() {
    assert_eq!(k_clustering::cdist(rgb(255, 0, 0), rgb(0, 0, 255)), 130050);
    assert_eq!(k_clustering::cdist(rgb(7, 8, 9), rgb(7, 8, 9)), 0);
    assert_eq!(k_clustering::cdist(rgb(10, 20, 30), rgb(13, 24, 35)), 9 + 16 + 25);
}

#[test]
fn cdist2_matches_weighted_formula() {
    // 1026*dr^2 + 2048*dg^2 + 1534*db^2 + r1 + r2
    assert_eq!(
        k_clustering::cdist2(rgb(10, 20, 30), rgb(13, 24, 35)),
        1026 * 9 + 2048 * 16 + 1534 * 25 + 10 + 13
    );
    assert_eq!(k_clustering::cdist2(rgb(0, 0, 0), rgb(0, 0, 0)), 0);
}
