use bitfield::delivery::DeliveryMode;
use bitfield::enumspec::{EnumSpec, TagDecl};
use bitfield::error::{DecodeError, LayoutError};
use bitfield::layout::{FieldSpec, Instance, Layout};

fn implicit(name: &str) -> TagDecl {
    TagDecl {
        name: name.to_owned(),
        discriminant: None,
    }
}

fn explicit(name: &str, d: u128) -> TagDecl {
    TagDecl {
        name: name.to_owned(),
        discriminant: Some(d),
    }
}

fn five_tags() -> Vec<TagDecl> {
    vec![
        implicit("A"),
        implicit("B"),
        implicit("C"),
        implicit("D"),
        implicit("E"),
    ]
}

#[test]
fn five_implicit_tags_derive_width_three() {
    let codec = EnumSpec::new(five_tags()).unwrap();
    assert_eq!(codec.width(), 3);
    assert_eq!(codec.count(), 5);
    for t in 0..5 {
        assert_eq!(codec.discriminant(t), t as u128);
        assert_eq!(codec.tag_name(t).as_str(), ["A", "B", "C", "D", "E"][t]);
    }
}

#[test]
fn sixth_tag_with_discriminant_eight_is_rejected() {
    let mut decls = five_tags();
    decls.push(explicit("F", 8));
    let err = EnumSpec::new(decls).unwrap_err();
    assert_eq!(
        err,
        LayoutError::DiscriminantOutOfRange {
            tag: "F".to_owned(),
            discriminant: 8,
            width: 3
        }
    );
}

#[test]
fn implicit_discriminants_continue_after_explicit() {
    let decls = vec![explicit("First", 1), implicit("Second"), implicit("Third")];
    let codec = EnumSpec::new(decls).unwrap();
    assert_eq!(codec.width(), 2);
    assert_eq!(codec.discriminant(0), 1);
    assert_eq!(codec.discriminant(1), 2);
    assert_eq!(codec.discriminant(2), 3);
}

#[test]
fn all_explicit_width_is_bit_length_of_largest() {
    let codec = EnumSpec::new(vec![explicit("P", 0), explicit("Q", 5)]).unwrap();
    assert_eq!(codec.width(), 3);
    let codec = EnumSpec::new(vec![explicit("P", 0), explicit("Q", 1)]).unwrap();
    assert_eq!(codec.width(), 1);
}

#[test]
fn single_tag_needs_no_bits() {
    let codec = EnumSpec::new(vec![implicit("Only")]).unwrap();
    assert_eq!(codec.width(), 0);
    assert_eq!(codec.discriminant(0), 0);
}

#[test]
fn duplicate_discriminant_is_rejected() {
    let decls = vec![explicit("P", 2), explicit("Q", 1), implicit("R")];
    let err = EnumSpec::new(decls).unwrap_err();
    assert_eq!(
        err,
        LayoutError::DuplicateDiscriminant {
            tag: "R".to_owned(),
            discriminant: 2
        }
    );
}

#[test]
fn empty_tag_list_is_rejected() {
    let err = EnumSpec::new(Vec::new()).unwrap_err();
    assert_eq!(err, LayoutError::EmptyEnum);
}

#[test]
fn decode_finds_each_tag() {
    let codec = EnumSpec::new(five_tags()).unwrap();
    for t in 0..5 {
        assert_eq!(codec.decode(t as u128), Ok(t));
    }
    assert_eq!(
        codec.decode(7),
        Err(DecodeError::UnknownDiscriminant { raw: 7 })
    );
}

#[test]
fn enumerated_field_round_trips_every_tag() {
    let codec = EnumSpec::new(five_tags()).unwrap();
    let fields = vec![
        FieldSpec::enumerated("mode".to_owned(), codec),
        FieldSpec::unsigned("rest".to_owned(), 5),
    ];
    let mut inst = Instance::new(Layout::new(fields).unwrap());
    for t in 0..5 {
        inst.set_tag(0, t);
        assert_eq!(inst.get_tag(0), Ok(t));
    }
}

#[test]
fn enumerated_field_does_not_disturb_neighbours() {
    let codec = EnumSpec::new(five_tags()).unwrap();
    let fields = vec![
        FieldSpec::unsigned("head".to_owned(), 2),
        FieldSpec::enumerated("mode".to_owned(), codec),
        FieldSpec::unsigned("tail".to_owned(), 3),
    ];
    let mut inst = Instance::new(Layout::new(fields).unwrap());
    inst.set(0, 2);
    inst.set(2, 5);
    inst.set_tag(1, 4);
    assert_eq!(inst.get(0), 2);
    assert_eq!(inst.get_tag(1), Ok(4));
    assert_eq!(inst.get(2), 5);
}

#[test]
fn corrupted_buffer_fails_to_decode() {
    let codec = EnumSpec::new(five_tags()).unwrap();
    let fields = vec![
        FieldSpec::enumerated("mode".to_owned(), codec),
        FieldSpec::unsigned("rest".to_owned(), 5),
    ];
    let mut inst = Instance::new(Layout::new(fields).unwrap());
    // Write a raw pattern that is no tag's discriminant, as a corrupted or
    // incompatible writer would.
    inst.set(0, 7);
    assert_eq!(
        inst.get_tag(0),
        Err(DecodeError::UnknownDiscriminant { raw: 7 })
    );
}

#[test]
fn single_tag_field_always_decodes() {
    let codec = EnumSpec::new(vec![implicit("Only")]).unwrap();
    let fields = vec![
        FieldSpec::enumerated("one".to_owned(), codec),
        FieldSpec::unsigned("rest".to_owned(), 8),
    ];
    let mut inst = Instance::new(Layout::new(fields).unwrap());
    assert_eq!(inst.get_tag(0), Ok(0));
    inst.set(1, 200);
    assert_eq!(inst.get_tag(0), Ok(0));
    assert_eq!(inst.get(1), 200);
}

#[test]
fn delivery_mode_discriminants() {
    assert_eq!(DeliveryMode::Fixed.discriminant(), 1);
    assert_eq!(DeliveryMode::Lowest.discriminant(), 2);
    assert_eq!(DeliveryMode::Startup.discriminant(), 7);
    assert_eq!(DeliveryMode::External.discriminant(), 8);
    assert_eq!(
        DeliveryMode::External.discriminant(),
        DeliveryMode::External.discriminant()
    );
}

#[test]
fn delivery_mode_codec_fails_to_build() {
    let err = DeliveryMode::enum_spec().unwrap_err();
    assert_eq!(
        err,
        LayoutError::DiscriminantOutOfRange {
            tag: "External".to_owned(),
            discriminant: 8,
            width: 3
        }
    );
}
