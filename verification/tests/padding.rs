use nn_patches::arith::div_ceil;
use nn_patches::padding::{ComputedPaddedDim, PaddingSpec};

fn dim(output: usize, pad_before: usize, pad_after: usize) -> ComputedPaddedDim {
    ComputedPaddedDim { output, pad_before, pad_after }
}

#[test]
fn no_padding_leaves_whole_kernels() {
    assert_eq!(PaddingSpec::Valid.compute_one(0, 10, 3, 1, 1), dim(8, 0, 0));
    assert_eq!(PaddingSpec::Valid.compute_one(0, 10, 3, 2, 1), dim(6, 0, 0));
    assert_eq!(PaddingSpec::Valid.compute_one(0, 10, 3, 1, 3), dim(3, 0, 0));
    assert_eq!(PaddingSpec::Valid.compute_one(0, 2, 3, 1, 1), dim(0, 0, 0));
}

#[test]
fn explicit_padding_is_taken_as_it_is() {
    let padding = PaddingSpec::Explicit(vec![1, 0], vec![2, 3]);
    assert_eq!(padding.compute_one(0, 5, 3, 1, 1), dim(6, 1, 2));
    assert_eq!(padding.compute_one(1, 5, 3, 1, 2), dim(3, 0, 3));
}

#[test]
fn same_padding_puts_the_rest_on_its_side() {
    assert_eq!(PaddingSpec::SameLower.compute_one(0, 5, 2, 1, 1), dim(5, 1, 0));
    assert_eq!(PaddingSpec::SameUpper.compute_one(0, 5, 2, 1, 1), dim(5, 0, 1));
    assert_eq!(PaddingSpec::SameLower.compute_one(0, 7, 4, 1, 2), dim(4, 2, 1));
    assert_eq!(PaddingSpec::SameUpper.compute_one(0, 7, 4, 1, 2), dim(4, 1, 2));
    assert_eq!(PaddingSpec::SameUpper.compute_one(0, 7, 3, 2, 2), dim(4, 2, 2));
}

#[test]
fn same_padding_is_never_negative() {
    assert_eq!(PaddingSpec::SameLower.compute_one(0, 2, 1, 1, 2), dim(1, 0, 0));
    assert_eq!(PaddingSpec::SameUpper.compute_one(0, 10, 1, 1, 4), dim(3, 0, 0));
}

#[test]
fn every_axis_is_padded() {
    let dims = PaddingSpec::SameUpper.compute(&[5, 8], &[3, 2], &[1, 2], &[1, 3]);
    assert_eq!(dims, vec![dim(5, 1, 1), dim(3, 0, 1)]);
    assert!(PaddingSpec::Valid.compute(&[], &[], &[], &[]).is_empty());
}

#[test]
fn division_rounds_up() {
    assert_eq!(div_ceil(0, 3), 0);
    assert_eq!(div_ceil(1, 3), 1);
    assert_eq!(div_ceil(6, 3), 2);
    assert_eq!(div_ceil(7, 3), 3);
    assert_eq!(div_ceil(usize::MAX, 1), usize::MAX);
    assert_eq!(div_ceil(usize::MAX, usize::MAX), 1);
}
