use ndarray::{arr2, Array2, ArrayD, Dimension};
use nn_patches::data_format::DataFormat;
use nn_patches::data_format::DataFormat::NCHW;
use nn_patches::padding::PaddingSpec;
use nn_patches::patch::Patch;
use nn_patches::patch_spec::PatchSpec;
use std::ops::Range;

fn compute_output_spatial_dim(
    input: usize,
    dilation: usize,
    kdim: usize,
    pad_before: usize,
    bad_after: usize,
    stride: usize,
) -> usize {
    let patch = PatchSpec {
        data_format: NCHW,
        dilations: vec![dilation],
        kernel_shape: vec![kdim],
        padding: PaddingSpec::Explicit(vec![pad_before], vec![bad_after]),
        strides: vec![stride],
        input_full_shape: vec![1, 1, input],
    }
    .into_patch();
    patch.output_spatial_shape[0]
}

#[test]
fn basic() {
    assert_eq!(compute_output_spatial_dim(5, 1, 3, 0, 0, 1), 3);
}

#[test]
fn strides() {
    assert_eq!(compute_output_spatial_dim(7, 1, 3, 0, 0, 2), 3);
}

#[test]
fn padding() {
    assert_eq!(compute_output_spatial_dim(5, 1, 3, 1, 1, 1), 5);
}

#[test]
fn strides_and_padding() {
    assert_eq!(compute_output_spatial_dim(7, 1, 3, 1, 1, 2), 4);
}

fn field(kdim: &[usize], dilations: &[usize]) -> Array2<isize> {
    let patch = PatchSpec {
        data_format: NCHW,
        dilations: dilations.into(),
        kernel_shape: kdim.into(),
        padding: PaddingSpec::Explicit(vec![0; kdim.len()], vec![0; kdim.len()]),
        strides: vec![1; kdim.len()],
        input_full_shape: vec![10; kdim.len() + 2],
    }
    .into_patch();
    let rows = patch.data_field.to_rows();
    let shape = (rows.len(), kdim.len());
    Array2::from_shape_vec(shape, rows.concat()).unwrap()
}

#[test]
fn test_field() {
    assert_eq!(field(&[3], &[1]), arr2(&[[0], [1], [2]]));
    assert_eq!(field(&[3], &[2]), arr2(&[[0], [2], [4]]));
    assert_eq!(field(&[2, 2], &[1, 1]), arr2(&[[0, 0], [0, 1], [1, 0], [1, 1]]));
    assert_eq!(field(&[2, 2], &[2, 1]), arr2(&[[0, 0], [0, 1], [2, 0], [2, 1]]));
}

#[test]
fn test_zone_visitor_1() {
    let p = PatchSpec {
        data_format: DataFormat::NCHW,
        dilations: vec![1, 1],
        kernel_shape: vec![2, 1],
        padding: PaddingSpec::SameLower,
        strides: vec![1, 2],
        input_full_shape: vec![1, 1, 2, 2],
    }
    .into_patch();
    let mut output = ArrayD::<i32>::zeros(&*p.output_full_shape(1));
    for (c, _v) in p.visit_all_2() {
        assert!(output[[0, 0, c.0, c.1]] == 0);
        output[[0, 0, c.0, c.1]] = 1;
    }
    assert!(output.iter().all(|&x| x == 1));
}

/// Small patches over two axes, with every choice of a few sizes.
fn patches_2d(inputs: &[usize]) -> Vec<Patch> {
    let mut patches = Vec::new();
    for dil in [(1, 1), (1, 2), (2, 1), (2, 2)] {
        for c in [1, 2] {
            for ks in [(1, 1), (1, 2), (2, 1), (2, 2)] {
                for s0 in 1..4 {
                    for s1 in 1..4 {
                        for &i0 in inputs {
                            for &i1 in inputs {
                                patches.push(
                                    PatchSpec {
                                        data_format: DataFormat::NCHW,
                                        dilations: vec![dil.0, dil.1],
                                        kernel_shape: vec![ks.0, ks.1],
                                        padding: PaddingSpec::SameLower,
                                        strides: vec![s0, s1],
                                        input_full_shape: vec![1, c, ks.0 + i0, ks.1 + i1],
                                    }
                                    .into_patch(),
                                );
                            }
                        }
                    }
                }
            }
        }
    }
    patches
}

fn in_zone(coords: &[usize], h_axis: usize, zone: &[Range<usize>]) -> bool {
    for a in 0..zone.len() {
        if coords[h_axis + a] < zone[a].start || coords[h_axis + a] >= zone[a].end {
            return false;
        }
    }
    true
}

#[test]
fn test_zoning() {
    for p in patches_2d(&[5, 6, 7, 8, 9, 10]) {
        let valid_zone = &p.valid_output_zone;
        let invalid_zones = &p.invalid_output_zones;
        let h_axis = p.input_shape.h_axis();
        for coords in ndarray::indices(&*p.output_full_shape(1)) {
            let inside_valid = in_zone(coords.slice(), h_axis, valid_zone);
            let invalid_count =
                invalid_zones.iter().filter(|z| in_zone(coords.slice(), h_axis, z)).count();
            assert_eq!(inside_valid, p.is_valid(&coords.slice()[p.input_shape.hw_axes()]));
            if inside_valid {
                assert_eq!(invalid_count, 0);
            } else {
                assert_eq!(invalid_count, 1);
            }
        }
    }
}

#[test]
fn test_zone_visitor() {
    for p in patches_2d(&[5, 6, 7, 8, 9, 10]) {
        let mut output = ArrayD::<i32>::zeros(&*p.output_full_shape(1));
        for (c, _v) in p.visit_all_2() {
            assert!(output[[0, 0, c.0, c.1]] == 0);
            output[[0, 0, c.0, c.1]] = 1;
        }
        assert!(output.iter().all(|&x| x == 1));
    }
}

#[test]
fn hints_tell_valid_places_from_others() {
    for p in patches_2d(&[5, 8]) {
        for (c, hint) in p.visit_all_d() {
            assert_eq!(hint, Some(p.is_valid(&c)));
        }
    }
}

/// A kernel of three over seven inputs with one of padding on both sides, every second place.
fn strided() -> Patch {
    PatchSpec::for_full_shape(NCHW, &[1, 1, 7])
        .with_kernel_shape(vec![3])
        .with_strides(vec![2])
        .with_padding(PaddingSpec::Explicit(vec![1], vec![1]))
        .into_patch()
}

#[test]
fn one_axis_is_worked_out() {
    let p = strided();
    assert_eq!(p.spec.kernel_shape, vec![3]);
    assert_eq!(p.pad_before, vec![1]);
    assert_eq!(p.pad_after, vec![1]);
    assert!(p.padded);
    assert_eq!(p.input_shape.shape, vec![1, 1, 7]);
    assert_eq!(p.output_spatial_shape, vec![4]);
    assert_eq!(p.data_field.to_rows(), vec![vec![-1], vec![0], vec![1]]);
    assert_eq!(p.data_field_min_max, vec![(-1, 1)]);
    assert_eq!(p.standard_layout_data_field, vec![-1, 0, 1]);
    assert_eq!(p.op_strides_times_input_storage_strides, vec![2]);
    assert_eq!(p.valid_output_zone, vec![1..3]);
    assert_eq!(p.invalid_output_zones, vec![vec![0..1], vec![3..4]]);
    assert_eq!(p.output_full_shape(5), vec![1, 5, 4]);
}

#[test]
fn two_axes_are_worked_out() {
    let p = PatchSpec::for_full_shape(NCHW, &[2, 3, 5, 4])
        .with_kernel_shape(vec![2, 3])
        .with_dilations(vec![2, 1])
        .with_padding(PaddingSpec::Explicit(vec![1, 0], vec![0, 2]))
        .into_patch();
    assert_eq!(p.output_spatial_shape, vec![4, 4]);
    assert_eq!(
        p.data_field.to_rows(),
        vec![vec![-1, 0], vec![-1, 1], vec![-1, 2], vec![1, 0], vec![1, 1], vec![1, 2]]
    );
    assert_eq!(p.data_field_min_max, vec![(-1, 1), (0, 2)]);
    assert_eq!(p.standard_layout_data_field, vec![-4, -3, -2, 4, 5, 6]);
    assert_eq!(p.op_strides_times_input_storage_strides, vec![4, 1]);
    assert_eq!(p.valid_output_zone, vec![1..4, 0..2]);
    assert_eq!(p.invalid_output_zones, vec![vec![0..1, 0..4], vec![1..4, 2..4]]);
    assert_eq!(p.output_full_shape(7), vec![2, 7, 4, 4]);
}

#[test]
fn channels_may_come_last() {
    let p = PatchSpec::for_full_shape(DataFormat::NHWC, &[1, 5, 4, 3])
        .with_kernel_shape(vec![3, 1])
        .with_strides(vec![1, 2])
        .into_patch();
    assert_eq!(p.input_shape.c_axis(), 3);
    assert_eq!(p.input_shape.h_axis(), 1);
    assert_eq!(p.input_shape.hw_axes(), 1..3);
    assert_eq!(p.input_shape.hw_dims().to_vec(), vec![5, 4]);
    assert_eq!(p.output_spatial_shape, vec![3, 2]);
    assert_eq!(p.standard_layout_data_field, vec![0, 12, 24]);
    assert_eq!(p.op_strides_times_input_storage_strides, vec![12, 6]);
    assert!(!p.padded);
    assert_eq!(p.output_full_shape(8), vec![1, 3, 2, 8]);
}

#[test]
fn there_need_be_no_spatial_axis() {
    let p = PatchSpec::for_full_shape(NCHW, &[1, 3]).into_patch();
    assert_eq!(p.data_field.to_rows(), vec![Vec::<isize>::new()]);
    assert_eq!(p.standard_layout_data_field, vec![0]);
    assert_eq!(p.output_full_shape(2), vec![1, 2]);
    assert!(!p.padded);
    assert!(p.valid_output_zone.is_empty());
    assert!(p.invalid_output_zones.is_empty());
    assert_eq!(p.visit_all_d(), vec![(vec![], Some(true))]);
}

#[test]
fn a_full_shape_has_a_kernel_of_one_tap() {
    let spec = PatchSpec::for_full_shape(NCHW, &[1, 2, 3, 4]);
    assert_eq!(
        spec,
        PatchSpec {
            data_format: NCHW,
            input_full_shape: vec![1, 2, 3, 4],
            kernel_shape: vec![1, 1],
            strides: vec![1, 1],
            dilations: vec![1, 1],
            padding: PaddingSpec::Valid,
        }
    );
    let p = spec.into_patch();
    assert_eq!(p.output_spatial_shape, vec![3, 4]);
    assert_eq!(p.output_full_shape(2), vec![1, 2, 3, 4]);
}

#[test]
fn taps_may_all_lie_in_the_padding() {
    let p = PatchSpec::for_full_shape(NCHW, &[1, 1, 3])
        .with_padding(PaddingSpec::Explicit(vec![2], vec![0]))
        .into_patch();
    assert_eq!(p.data_field_min_max, vec![(-2, -2)]);
    assert_eq!(p.output_spatial_shape, vec![5]);
    assert_eq!(p.valid_output_zone, vec![2..5]);
    assert_eq!(p.invalid_output_zones, vec![vec![0..2]]);
    assert!(!p.is_valid(&[1]));
    assert!(p.is_valid(&[2]));
}

#[test]
fn a_long_kernel_straddles_the_input() {
    let p = PatchSpec::for_full_shape(NCHW, &[1, 1, 1])
        .with_kernel_shape(vec![4])
        .with_padding(PaddingSpec::Explicit(vec![3], vec![3]))
        .into_patch();
    assert_eq!(p.output_spatial_shape, vec![4]);
    assert_eq!(p.valid_output_zone, vec![3..1]);
    assert_eq!(p.invalid_output_zones, vec![vec![0..3], vec![1..4]]);
    let straddling = p.invalid_output_zones.iter().filter(|z| in_zone(&[2], 0, z)).count();
    assert_eq!(straddling, 2);
}

#[test]
fn an_empty_axis_has_no_valid_place() {
    let p = PatchSpec::for_full_shape(NCHW, &[1, 1, 0, 2]).into_patch();
    assert_eq!(p.output_spatial_shape, vec![0, 2]);
    assert!(p.visit_all_2().is_empty());
    assert!(p.visit_all_d().is_empty());
}

#[test]
fn zones_are_walked_in_order() {
    let p = strided();
    assert_eq!(p.visit_valid_1(), vec![(1, Some(true)), (2, Some(true))]);
    assert_eq!(p.visit_invalid_1(), vec![(0, Some(false)), (3, Some(false))]);
    assert_eq!(
        p.visit_all_1(),
        vec![(1, Some(true)), (2, Some(true)), (0, Some(false)), (3, Some(false))]
    );
    assert_eq!(p.visit_zone_1(&[5..7, 0..9], None), vec![(5, None), (6, None)]);
    assert_eq!(
        p.visit_zone_2(&[1..3, 4..6, 0..9], Some(true)),
        vec![
            ((1, 4), Some(true)),
            ((1, 5), Some(true)),
            ((2, 4), Some(true)),
            ((2, 5), Some(true)),
        ]
    );
    assert_eq!(
        p.visit_zone_d(&[1..2, 3..5, 7..8], None),
        vec![(vec![1, 3, 7], None), (vec![1, 4, 7], None)]
    );
    assert_eq!(p.visit_zone_d(&[1..2, 3..3], None), vec![]);
}

#[test]
fn visits_agree_whatever_the_number_of_axes() {
    let p = PatchSpec::for_full_shape(NCHW, &[1, 1, 4, 5])
        .with_kernel_shape(vec![3, 2])
        .with_padding(PaddingSpec::SameUpper)
        .into_patch();
    let flat: Vec<_> = p.visit_all_2().into_iter().map(|(c, h)| (vec![c.0, c.1], h)).collect();
    assert_eq!(flat, p.visit_all_d());
    assert_eq!(p.visit_valid_2().len() + p.visit_invalid_2().len(), 20);
    assert_eq!(p.visit_valid_d().len(), p.visit_valid_2().len());
    assert_eq!(p.visit_invalid_d().len(), p.visit_invalid_2().len());
    let valid_rows: Vec<usize> = p.visit_valid_1().into_iter().map(|(c, _)| c).collect();
    assert_eq!(valid_rows, vec![1, 2]);
    assert_eq!(p.visit_all_1().len(), 4 + p.visit_valid_1().len());
}

#[test]
fn copies_are_the_same() {
    for p in [strided(), PatchSpec::for_full_shape(NCHW, &[1, 2, 3, 4]).into_patch()] {
        let copy = p.clone();
        assert_eq!(copy, p);
        assert_eq!(copy.data_field.to_rows(), p.data_field.to_rows());
        assert_eq!(copy.spec.clone().into_patch(), p);
        assert_eq!(copy.input_shape.clone(), p.input_shape);
    }
    for padding in [PaddingSpec::Valid, PaddingSpec::SameUpper, PaddingSpec::SameLower] {
        assert_eq!(padding.clone(), padding);
    }
    assert_ne!(strided(), PatchSpec::for_full_shape(NCHW, &[1, 1, 7]).into_patch());
}

#[test]
fn short_kernels_leave_ordered_zones() {
    for p in patches_2d(&[0, 1, 5]) {
        for ix in 0..2 {
            let span = (p.spec.kernel_shape[ix] - 1) * p.spec.dilations[ix] + 1;
            if span <= p.input_shape.hw_dims()[ix] + 1 {
                assert!(p.valid_output_zone[ix].start <= p.valid_output_zone[ix].end);
            }
        }
    }
}

#[test]
fn taps_stay_in_the_padded_input() {
    for p in patches_2d(&[0, 1, 5, 6]) {
        for ix in 0..2 {
            let (first, last) = p.data_field_min_max[ix];
            let before = p.pad_before[ix] as isize;
            let end = (p.input_shape.hw_dims()[ix] + p.pad_after[ix]) as isize;
            for place in 0..p.output_spatial_shape[ix] {
                let pos = (place * p.spec.strides[ix]) as isize;
                assert!(-before <= pos + first);
                assert!(pos + last < end);
            }
        }
    }
}

#[test]
fn the_extremes_are_taps() {
    for p in patches_2d(&[1, 5]) {
        for ix in 0..2 {
            let column: Vec<isize> = p.data_field.to_rows().iter().map(|row| row[ix]).collect();
            assert_eq!(p.data_field_min_max[ix].0, *column.iter().min().unwrap());
            assert_eq!(p.data_field_min_max[ix].1, *column.iter().max().unwrap());
        }
    }
}
