use k_clustering::Color;
use k_clustering::Image;
use k_clustering::KMeansSegmentation;

fn rgb(r: u8, g: u8, b: u8) -> Color {
    Color { r, g, b }
}

fn make_image(width: usize, height: usize, pixels: Vec<Color>) -> Image {
    Image::new(width, height, pixels).expect("valid image")
}

#[test]
fn starvation_two_by_two() {
    // two red and two blue pixels, two clusters, both centroids white:
    // every pixel ties between the identical centroids and the lowest index
    // wins, so cluster 1 starves permanently
    let img = make_image(
        2,
        2,
        vec![rgb(255, 0, 0), rgb(255, 0, 0), rgb(0, 0, 255), rgb(0, 0, 255)],
    );
    let mut kms = KMeansSegmentation::new(img, 2);
    let first = kms.iteration();
    assert_eq!(first, 4);
    for a in &kms.cluster_assignment {
        assert_eq!(*a, Some(0));
    }
    // channel sums 510, 0, 510 over four pixels, smoothed count 5
    assert_eq!(kms.mean_colors[0], rgb(102, 0, 102));
    // no pixels: sums 0, smoothed count 1
    assert_eq!(kms.mean_colors[1], rgb(0, 0, 0));
    let second = kms.iteration();
    assert_eq!(second, 0);
    assert_eq!(kms.mean_colors[0], rgb(102, 0, 102));
    assert_eq!(kms.mean_colors[1], rgb(0, 0, 0));
}

#[test]
fn single_cluster_mean() {
    // with one cluster the centroid becomes the smoothed mean of all pixels
    let img = make_image(
        3,
        1,
        vec![rgb(10, 20, 30), rgb(50, 60, 70), rgb(90, 100, 110)],
    );
    let mut kms = KMeansSegmentation::new(img, 1);
    let first = kms.iteration();
    assert_eq!(first, 3);
    // sums 150, 180, 210 over three pixels, smoothed count 4
    assert_eq!(kms.mean_colors[0], rgb(37, 45, 52));
    assert_eq!(kms.iteration(), 0);
}

#[test]
fn zero_clusters_never_assign() {
    let img = make_image(2, 1, vec![rgb(1, 2, 3), rgb(4, 5, 6)]);
    let mut kms = KMeansSegmentation::new(img, 0);
    assert_eq!(kms.iteration(), 0);
    assert_eq!(kms.iteration(), 0);
    for a in &kms.cluster_assignment {
        assert_eq!(*a, None);
    }
    assert!(kms.mean_colors.is_empty());
}

#[test]
fn converged_stays_converged() {
    let img = make_image(
        2,
        2,
        vec![rgb(0, 0, 0), rgb(255, 255, 255), rgb(10, 10, 10), rgb(240, 240, 240)],
    );
    let mut kms = KMeansSegmentation::new(img, 2);
    let mut guard = 0;
    while kms.iteration() > 0 {
        guard += 1;
        assert!(guard < 1000);
    }
    let colors = kms.mean_colors.clone();
    let assigns = kms.cluster_assignment.clone();
    assert_eq!(kms.iteration(), 0);
    assert_eq!(kms.iteration(), 0);
    assert_eq!(kms.mean_colors, colors);
    assert_eq!(kms.cluster_assignment, assigns);
}

#[test]
fn tie_break_picks_lowest_index() {
    // three identical centroids: the first strictly-smaller fold keeps index 0
    let img = make_image(1, 1, vec![rgb(100, 100, 100)]);
    let mut kms = KMeansSegmentation::new(img, 3);
    kms.iteration();
    assert_eq!(kms.cluster_assignment[0], Some(0));
}

#[test]
fn assignments_stay_in_domain() {
    let img = make_image(
        2,
        2,
        vec![rgb(9, 8, 7), rgb(200, 13, 77), rgb(0, 255, 0), rgb(128, 128, 128)],
    );
    let mut kms = KMeansSegmentation::new(img, 3);
    for _ in 0..5 {
        kms.iteration();
        for a in &kms.cluster_assignment {
            match a {
                Some(c) => assert!(*c < 3),
                None => panic!("assigned pixels must stay assigned"),
            }
        }
    }
}

#[test]
fn fresh_engine_is_white_and_unassigned() {
    let img = make_image(1, 2, vec![rgb(1, 1, 1), rgb(2, 2, 2)]);
    let kms = KMeansSegmentation::new(img, 4);
    assert_eq!(kms.n_clusters, 4);
    assert_eq!(kms.mean_colors, vec![rgb(255, 255, 255); 4]);
    assert_eq!(kms.cluster_assignment, vec![None; 2]);
}

#[test]
fn image_new_rejects_bad_shapes() {
    assert!(Image::new(2, 2, vec![rgb(0, 0, 0); 3]).is_none());
    assert!(Image::new(2, 2, vec![rgb(0, 0, 0); 4]).is_some());
    if usize::BITS > 32 {
        assert!(Image::new(0x1_0000_0000, 0, vec![]).is_none());
    }
}
