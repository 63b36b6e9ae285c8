use qufit::container::DataContainer;
use qufit::medfilt::medfilt2d;
use qufit::ShapeError;

// Non-negative floats order like their bit patterns.
fn to_keys(values: &[f64]) -> Vec<u64> {
    values.iter().map(|v| v.to_bits()).collect()
}

fn from_keys(keys: &[u64]) -> Vec<f64> {
    keys.iter().map(|k| f64::from_bits(*k)).collect()
}

#[test]
fn test_filter() {
    let mut input = vec![0.0f64; 100];
    for i in 3..7 {
        for j in 3..7 {
            input[i * 10 + j] = 1.0;
        }
    }
    let output: Vec<f64> = vec![
        0., 0., 0., 0., 0., 0., 0., 0., 0., 0., //
        0., 0., 0., 0., 0., 0., 0., 0., 0., 0., //
        0., 0., 0., 0., 0., 0., 0., 0., 0., 0., //
        0., 0., 0., 0., 1., 1., 0., 0., 0., 0., //
        0., 0., 0., 1., 1., 1., 1., 0., 0., 0., //
        0., 0., 0., 1., 1., 1., 1., 0., 0., 0., //
        0., 0., 0., 0., 1., 1., 0., 0., 0., 0., //
        0., 0., 0., 0., 0., 0., 0., 0., 0., 0., //
        0., 0., 0., 0., 0., 0., 0., 0., 0., 0., //
        0., 0., 0., 0., 0., 0., 0., 0., 0., 0.,
    ];
    let filtered = from_keys(&medfilt2d(&to_keys(&input), 10, 10, 3));
    assert_eq!(filtered, output);
}

#[test]
fn median_of_clipped_corner_window() {
    // 3 x 3 image, kernel 3: the corner window holds 4 values, whose upper median is taken.
    let image: Vec<u64> = vec![9, 1, 5, 3, 7, 2, 8, 6, 4];
    let r = medfilt2d(&image, 3, 3, 3);
    // corner (0, 0): {9, 1, 3, 7} sorted 1 3 7 9 -> index 2 -> 7
    assert_eq!(r[0], 7);
    // centre: all nine values, sorted 1..9 -> index 4 -> 5
    assert_eq!(r[4], 5);
    // edge (0, 1): {9, 1, 5, 3, 7, 2} sorted 1 2 3 5 7 9 -> index 3 -> 5
    assert_eq!(r[1], 5);
}

#[test]
fn kernel_of_one_is_identity() {
    let image: Vec<u64> = vec![4, 8, 15, 16, 23, 42];
    assert_eq!(medfilt2d(&image, 2, 3, 1), image);
}

#[test]
fn medfilt_array_filters_each_frame() {
    // shape (1, 1, 2, 3, 3): two frames of 3 x 3
    let mut values: Vec<u64> = vec![0; 9];
    values[4] = 100; // an isolated spike in frame 0
    values.extend(vec![5u64; 9]);
    let data = DataContainer::from_parts(vec![1, 1, 2, 3, 3], values).unwrap();
    let out = data.medfilt_array(3).unwrap();
    assert_eq!(out.shape(), &vec![2, 3, 3]);
    let (_, v) = out.into_parts();
    assert_eq!(&v[0..9], &[0u64; 9]);
    assert_eq!(&v[9..18], &[5u64; 9]);
}

#[test]
fn medfilt_array_needs_five_axes() {
    let data = DataContainer::from_parts(vec![1, 2, 3, 4], vec![0u64; 24]).unwrap();
    assert_eq!(data.medfilt_array(3).err(), Some(ShapeError::UnsupportedRank { ndim: 4 }));
}
