use bitfield::error::LayoutError;
use bitfield::layout::{FieldSpec, Instance, Layout};

fn unsigned(name: &str, width: usize) -> FieldSpec {
    FieldSpec::unsigned(name.to_owned(), width)
}

fn four_byte_layout() -> Layout {
    let fields = vec![
        unsigned("a", 1),
        unsigned("b", 3),
        unsigned("c", 4),
        unsigned("d", 24),
    ];
    Layout::new(fields).unwrap()
}

#[test]
fn four_fields_scenario() {
    let mut inst = Instance::new(four_byte_layout());
    inst.set(0, 1);
    inst.set(1, 7);
    inst.set(2, 14);
    inst.set(3, 246);
    assert_eq!(inst.get(0), 1);
    assert_eq!(inst.get(1), 7);
    assert_eq!(inst.get(2), 14);
    assert_eq!(inst.get(3), 246);
    assert_eq!(inst.bytes().as_slice(), &[0xEF, 246, 0, 0]);
}

#[test]
fn four_fields_order_independent() {
    let mut inst = Instance::new(four_byte_layout());
    inst.set(3, 246);
    inst.set(1, 7);
    inst.set(0, 1);
    inst.set(2, 14);
    assert_eq!(
        (inst.get(0), inst.get(1), inst.get(2), inst.get(3)),
        (1, 7, 14, 246)
    );
    assert_eq!(inst.bytes().as_slice(), &[0xEF, 246, 0, 0]);
}

#[test]
fn byte_length_is_total_width_over_eight() {
    let layout = four_byte_layout();
    assert_eq!(layout.byte_len(), 4);
    assert_eq!(layout.num_fields(), 4);
    let inst = Instance::new(layout);
    assert_eq!(inst.bytes().len(), 4);
}

#[test]
fn zero_initialized() {
    let inst = Instance::new(four_byte_layout());
    assert_eq!(inst.bytes().as_slice(), &[0, 0, 0, 0]);
    for i in 0..4 {
        assert_eq!(inst.get(i), 0);
    }
}

#[test]
fn round_trip_every_value() {
    let fields = vec![unsigned("low", 3), unsigned("high", 5)];
    let mut inst = Instance::new(Layout::new(fields).unwrap());
    for v in 0..8u128 {
        inst.set(0, v);
        assert_eq!(inst.get(0), v);
    }
    for v in 0..32u128 {
        inst.set(1, v);
        assert_eq!(inst.get(1), v);
    }
}

#[test]
fn set_keeps_low_bits_of_oversized_value() {
    let fields = vec![unsigned("low", 3), unsigned("high", 5)];
    let mut inst = Instance::new(Layout::new(fields).unwrap());
    inst.set(0, 14);
    assert_eq!(inst.get(0), 6);
    assert_eq!(inst.get(1), 0);
}

#[test]
fn last_write_wins() {
    let mut inst = Instance::new(four_byte_layout());
    inst.set(1, 5);
    inst.set(1, 2);
    assert_eq!(inst.get(1), 2);
}

#[test]
fn independence_across_byte_straddle() {
    // The middle field occupies bits 4..13, straddling the byte boundary.
    let fields = vec![unsigned("head", 4), unsigned("mid", 9), unsigned("tail", 3)];
    let mut inst = Instance::new(Layout::new(fields).unwrap());
    inst.set(0, 0x9);
    inst.set(2, 0x5);
    inst.set(1, 0x1AB);
    assert_eq!(inst.get(0), 0x9);
    assert_eq!(inst.get(1), 0x1AB);
    assert_eq!(inst.get(2), 0x5);
    inst.set(1, 0);
    assert_eq!(inst.get(0), 0x9);
    assert_eq!(inst.get(2), 0x5);
}

#[test]
fn independence_adjacent_fields() {
    let mut inst = Instance::new(four_byte_layout());
    inst.set(0, 1);
    inst.set(1, 7);
    inst.set(2, 14);
    inst.set(3, 246);
    inst.set(2, 3);
    assert_eq!(inst.get(0), 1);
    assert_eq!(inst.get(1), 7);
    assert_eq!(inst.get(2), 3);
    assert_eq!(inst.get(3), 246);
}

#[test]
fn get_is_idempotent() {
    let mut inst = Instance::new(four_byte_layout());
    inst.set(3, 123456);
    let first = inst.get(3);
    let second = inst.get(3);
    assert_eq!(first, second);
    assert_eq!(first, 123456);
}

#[test]
fn misaligned_total_width_is_rejected() {
    let fields = vec![
        unsigned("a", 1),
        unsigned("b", 3),
        unsigned("c", 4),
        unsigned("d", 23),
    ];
    let err = Layout::new(fields).unwrap_err();
    assert_eq!(err, LayoutError::NotByteAligned { total_bits: 31 });
}

#[test]
fn single_misaligned_field_is_rejected() {
    let err = Layout::new(vec![unsigned("x", 7)]).unwrap_err();
    assert_eq!(err, LayoutError::NotByteAligned { total_bits: 7 });
}

#[test]
fn zero_width_field_is_rejected() {
    let err = Layout::new(vec![unsigned("x", 0), unsigned("y", 8)]).unwrap_err();
    assert_eq!(
        err,
        LayoutError::WidthOutOfRange {
            field: "x".to_owned(),
            width: 0
        }
    );
}

#[test]
fn overwide_field_is_rejected() {
    let err = Layout::new(vec![unsigned("x", 129)]).unwrap_err();
    assert_eq!(
        err,
        LayoutError::WidthOutOfRange {
            field: "x".to_owned(),
            width: 129
        }
    );
}

#[test]
fn empty_layout_is_a_zero_byte_buffer() {
    let layout = Layout::new(Vec::new()).unwrap();
    assert_eq!(layout.byte_len(), 0);
    let inst = Instance::new(layout);
    assert!(inst.bytes().is_empty());
}

#[test]
fn widest_field_round_trips() {
    let fields = vec![unsigned("wide", 128)];
    let mut inst = Instance::new(Layout::new(fields).unwrap());
    inst.set(0, u128::MAX);
    assert_eq!(inst.get(0), u128::MAX);
    assert_eq!(inst.bytes().as_slice(), &[0xFFu8; 16]);
    inst.set(0, 0x0123_4567_89AB_CDEF_0123_4567_89AB_CDEF);
    assert_eq!(inst.get(0), 0x0123_4567_89AB_CDEF_0123_4567_89AB_CDEF);
}

#[test]
fn field_names_are_kept() {
    let layout = four_byte_layout();
    assert_eq!(layout.field_name(0), "a");
    assert_eq!(layout.field_name(3), "d");
    assert_eq!(layout.span(2).offset, 4);
    assert_eq!(layout.span(2).width, 4);
    assert_eq!(layout.span(3).offset, 8);
}

#[test]
fn fields_are_found_by_name() {
    let layout = four_byte_layout();
    assert_eq!(layout.field_index(&"c".to_owned()), Some(2));
    assert_eq!(layout.field_index(&"a".to_owned()), Some(0));
    assert_eq!(layout.field_index(&"nope".to_owned()), None);
}
