use qufit::compress::{count_blocks, new_shape};
use qufit::container::DataContainer;
use qufit::ShapeError;

#[test]
fn ten_samples_in_blocks_of_three_give_four_blocks() {
    let values: Vec<f64> = (0..10).map(|v| v as f64).collect();
    let data = DataContainer::from_parts(vec![1, 1, 1, 10], values).unwrap();
    let groups = data.block_groups(3).unwrap();
    assert_eq!(groups.shape(), &vec![1, 1, 1, 4]);
    let (_, g) = groups.into_parts();
    assert_eq!(g.len(), 4);
    assert_eq!(g[0], vec![0.0, 1.0, 2.0]);
    assert_eq!(g[2], vec![6.0, 7.0, 8.0]);
    assert_eq!(g[3], vec![9.0]);
    let last_mean = g[3].iter().sum::<f64>() / g[3].len() as f64;
    assert_eq!(last_mean, 9.0);
}

#[test]
fn count_blocks_rounds_up() {
    assert_eq!(count_blocks(10, 3), 4);
    assert_eq!(count_blocks(9, 3), 3);
    assert_eq!(count_blocks(0, 3), 0);
    assert_eq!(count_blocks(1, 8), 1);
    assert_eq!(count_blocks(usize::MAX, 1), usize::MAX);
}

#[test]
fn new_shape_keeps_the_leading_axes() {
    assert_eq!(new_shape(&vec![2, 5, 7, 17, 16], 8), vec![2, 5, 7, 3, 2]);
    assert_eq!(new_shape(&vec![2, 5, 7, 17], 4), vec![2, 5, 7, 5]);
}

#[test]
fn two_dimensional_blocks_gather_row_by_row() {
    // shape (1, 1, 1, 3, 3): values 0..9, blocks of 2
    let values: Vec<u32> = (0..9).collect();
    let data = DataContainer::from_parts(vec![1, 1, 1, 3, 3], values).unwrap();
    let groups = data.block_groups(2).unwrap();
    assert_eq!(groups.shape(), &vec![1, 1, 1, 2, 2]);
    let (_, g) = groups.into_parts();
    assert_eq!(g, vec![vec![0, 1, 3, 4], vec![2, 5], vec![6, 7], vec![8]]);
}

#[test]
fn blocks_repeat_for_each_leading_position() {
    // shape (2, 1, 1, 2, 1): two channels of a 2 x 1 grid, blocks of 2
    let data = DataContainer::from_parts(vec![2, 1, 1, 2, 1], vec![1, 2, 3, 4]).unwrap();
    let (shape, g) = data.block_groups(2).unwrap().into_parts();
    assert_eq!(shape, vec![2, 1, 1, 1, 1]);
    assert_eq!(g, vec![vec![1, 2], vec![3, 4]]);
}

#[test]
fn single_spatial_sample_keeps_every_value() {
    let data = DataContainer::from_parts(vec![1, 2, 2, 1], vec![5, 6, 7, 8]).unwrap();
    let (shape, g) = data.block_groups(4).unwrap().into_parts();
    assert_eq!(shape, vec![1, 2, 2, 1]);
    assert_eq!(g, vec![vec![5], vec![6], vec![7], vec![8]]);
}

#[test]
fn block_groups_need_four_or_five_axes() {
    let data = DataContainer::from_parts(vec![2, 2, 2], vec![0; 8]).unwrap();
    assert_eq!(data.block_groups(2).err(), Some(ShapeError::UnsupportedRank { ndim: 3 }));
}

#[test]
fn reference_channels_split_axis_zero() {
    let data = DataContainer::from_parts(vec![2, 1, 3], vec![1.0, 2.0, 3.0, 4.0, 5.0, 6.0]).unwrap();
    let (a, b) = data.reference_channels().unwrap();
    assert_eq!(a.shape(), &vec![1, 1, 3]);
    assert_eq!(b.shape(), &vec![1, 1, 3]);
    assert_eq!(a.values(), &vec![1.0, 2.0, 3.0]);
    assert_eq!(b.values(), &vec![4.0, 5.0, 6.0]);
}

#[test]
fn reference_channels_need_two_channels() {
    let data = DataContainer::from_parts(vec![3, 1], vec![1.0, 2.0, 3.0]).unwrap();
    assert_eq!(
        data.reference_channels().err(),
        Some(ShapeError::ReferenceChannels { found: 3 })
    );
    let data = DataContainer::from_parts(vec![], vec![1.0]).unwrap();
    assert_eq!(data.reference_channels().err(), Some(ShapeError::UnsupportedRank { ndim: 0 }));
}
