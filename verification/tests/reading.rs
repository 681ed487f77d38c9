use ndarray::{Array, ArrayD, IxDyn};
use nn_patches::data_format::DataFormat::{NCHW, NHWC};
use nn_patches::padding::PaddingSpec;
use nn_patches::patch::Patch;
use nn_patches::patch_spec::PatchSpec;
use nn_patches::visitor::{PatchIterator, PatchVisitor};

fn read(mut it: PatchIterator) -> Vec<Option<isize>> {
    let mut found = Vec::new();
    while let Some(tap) = it.next() {
        found.push(tap);
    }
    assert_eq!(it.next(), None);
    found
}

fn lay<'p>(patch: &'p Patch) -> PatchVisitor<'p> {
    let input = ArrayD::<u8>::zeros(IxDyn(&patch.spec.input_full_shape));
    patch.wrap(input.strides())
}

fn image() -> Patch {
    PatchSpec::for_full_shape(NCHW, &[1, 1, 3, 4])
        .with_kernel_shape(vec![2, 3])
        .with_padding(PaddingSpec::Explicit(vec![1, 1], vec![0, 1]))
        .into_patch()
}

#[test]
fn valid_places_are_read_fast() {
    let p = image();
    let visitor = lay(&p);
    assert!(matches!(visitor.attt(&[1, 1]), PatchIterator::Fast(_)));
    let all: Vec<_> = [0, 1, 2, 4, 5, 6].iter().map(|&o| Some(o)).collect();
    assert_eq!(read(visitor.attt(&[1, 1])), all);
    assert_eq!(read(visitor.at_hint(&[1, 1], Some(true))), all);
    assert_eq!(read(visitor.at_hint(&[1, 1], Some(false))), all);
}

#[test]
fn taps_outside_of_the_input_are_told() {
    let p = image();
    let visitor = lay(&p);
    assert!(matches!(visitor.attt(&[0, 0]), PatchIterator::Safe(_)));
    let corner = vec![None, None, None, None, Some(0), Some(1)];
    assert_eq!(read(visitor.attt(&[0, 0])), corner);
    assert_eq!(read(visitor.at_hint(&[0, 0], Some(false))), corner);
    assert_eq!(
        read(visitor.attt(&[2, 3])),
        vec![Some(6), Some(7), None, Some(10), Some(11), None]
    );
}

#[test]
fn a_hint_is_believed() {
    let p = image();
    let visitor = lay(&p);
    assert!(matches!(visitor.at_hint(&[0, 0], Some(true)), PatchIterator::Fast(_)));
    assert_eq!(
        read(visitor.at_hint(&[0, 0], Some(true))),
        vec![Some(-5), Some(-4), Some(-3), Some(-1), Some(0), Some(1)]
    );
    assert!(matches!(visitor.at_hint(&[1, 1], Some(false)), PatchIterator::Safe(_)));
}

#[test]
fn without_padding_nothing_is_asked() {
    let p = PatchSpec::for_full_shape(NCHW, &[1, 2, 4])
        .with_kernel_shape(vec![2])
        .with_strides(vec![2])
        .with_dilations(vec![1])
        .into_patch();
    let visitor = lay(&p);
    assert_eq!(p.output_spatial_shape, vec![2]);
    for place in 0..2 {
        assert!(matches!(visitor.attt(&[place]), PatchIterator::Fast(_)));
    }
    assert_eq!(read(visitor.attt(&[1])), vec![Some(2), Some(3)]);
    assert_eq!(read(visitor.attt(&[2])), vec![Some(4), Some(5)]);
}

#[test]
fn offsets_count_the_channels_that_come_last() {
    let p = PatchSpec::for_full_shape(NHWC, &[1, 3, 2, 5])
        .with_kernel_shape(vec![2, 2])
        .with_padding(PaddingSpec::SameLower)
        .into_patch();
    let visitor = lay(&p);
    assert_eq!(read(visitor.attt(&[0, 0])), vec![None, None, None, Some(0)]);
    assert_eq!(read(visitor.attt(&[2, 1])), vec![Some(10), Some(15), Some(20), Some(25)]);
}

#[test]
fn one_tap_may_be_asked_for() {
    let p = image();
    let visitor = lay(&p);
    assert_eq!(visitor.global_offset_for(&[1, 1], 0), 0);
    assert_eq!(visitor.global_offset_for(&[1, 1], 5), 6);
    assert_eq!(visitor.global_offset_for(&[2, 3], 4), 11);
    assert_eq!(visitor.global_offset_for(&[0, 0], 0), usize::MAX - 4);
}

#[test]
fn single_taps_read_the_input() {
    let p = PatchSpec::for_full_shape(NCHW, &[1, 1, 2, 3]).into_patch();
    let visitor = lay(&p);
    let mut found = Vec::new();
    for (place, hint) in p.visit_all_d() {
        found.extend(read(visitor.at_hint(&place, hint)));
    }
    assert_eq!(found, (0..6).map(Some).collect::<Vec<_>>());
}

#[test]
fn a_scalar_image_has_one_tap() {
    let p = PatchSpec::for_full_shape(NCHW, &[1, 3]).into_patch();
    let visitor = lay(&p);
    assert_eq!(read(visitor.attt(&[])), vec![Some(0)]);
    assert_eq!(visitor.global_offset_for(&[], 0), 0);
}

/// Every tap is where the coordinates of its point say, in a whole image.
#[test]
fn taps_are_where_their_points_lie() {
    let shape = [1, 1, 5, 6];
    let elems = Array::from_shape_fn(shape, |(_, _, y, x)| (y, x));
    let elems = elems.as_slice().unwrap();
    for padding in [PaddingSpec::SameUpper, PaddingSpec::SameLower, PaddingSpec::Valid] {
        let p = PatchSpec::for_full_shape(NCHW, &shape)
            .with_kernel_shape(vec![3, 2])
            .with_dilations(vec![1, 2])
            .with_strides(vec![2, 1])
            .with_padding(padding)
            .into_patch();
        let visitor = lay(&p);
        let taps = p.data_field.to_rows();
        for (place, hint) in p.visit_all_2() {
            let place = [place.0, place.1];
            let found = read(visitor.at_hint(&place, hint));
            assert_eq!(found, read(visitor.attt(&place)));
            assert_eq!(found, read(visitor.at_hint(&place, Some(false))));
            assert_eq!(found.len(), 6);
            for (t, tap) in taps.iter().enumerate() {
                let y = (place[0] * 2) as isize + tap[0];
                let x = place[1] as isize + tap[1];
                if 0 <= y && y < 5 && 0 <= x && x < 6 {
                    let offset = found[t].unwrap() as usize;
                    assert_eq!(elems[offset], (y as usize, x as usize));
                    assert_eq!(visitor.global_offset_for(&place, t), offset);
                } else {
                    assert_eq!(found[t], None);
                }
            }
        }
    }
}

#[test]
fn reading_on_does_not_change_how_it_is_read() {
    let p = image();
    let visitor = lay(&p);
    let mut fast = visitor.attt(&[1, 1]);
    let mut safe = visitor.attt(&[0, 0]);
    for _ in 0..8 {
        assert!(matches!(fast, PatchIterator::Fast(_)));
        assert!(matches!(safe, PatchIterator::Safe(_)));
        fast.next();
        safe.next();
    }
}
