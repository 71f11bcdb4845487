use libdns::label::DomainLabel;
use libdns::label_map::LabelMap;
use libdns::types::DomainPointer;

#[test]
fn test_label_map_insert() {
    // Test with insertion of labels into empty map
    let mut label_map = LabelMap::new();
    let labels = vec![
        DomainLabel::try_from("api").unwrap(),
        DomainLabel::try_from("stripe").unwrap(),
        DomainLabel::try_from("com").unwrap(),
    ];
    let result = label_map.insert(&labels, 0);
    assert_eq!(result.inserted_records, 3);
    assert_eq!(
        result.new_offset,
        labels
            .iter()
            .map(|label| label.len_bytes() as u16)
            .sum::<u16>()
    );
    assert_eq!(result.remaining_labels, Vec::new());

    let offset = result.new_offset;
    // Test that no records will be inserted if they already exist
    let result = label_map.insert(&labels, offset);
    assert_eq!(result.inserted_records, 0);
    assert_eq!(result.new_offset, offset);
    assert_eq!(result.remaining_labels, labels);

    // Test partial label insertion
    let labels = vec![
        DomainLabel::try_from("docs").unwrap(),
        DomainLabel::try_from("stripe").unwrap(),
        DomainLabel::try_from("com").unwrap(),
    ];

    let result = label_map.insert(&labels, offset);
    assert_eq!(result.inserted_records, 1);
    assert_eq!(result.new_offset, offset + labels[0].len_bytes() as u16);
    assert_eq!(result.remaining_labels, labels[1..].to_vec());
}

#[test]
fn test_get_domain_ptr() {
    let mut label_map = LabelMap::new();
    let labels = vec![
        DomainLabel::try_from("api").unwrap(),
        DomainLabel::try_from("stripe").unwrap(),
        DomainLabel::try_from("com").unwrap(),
    ];

    let offset = 29;
    label_map.insert(&labels, offset);
    let (domain_ptr, remaining_labels) = label_map.get_domain_ptr(&labels).unwrap();
    let expected_ptr = DomainPointer::new(offset);
    assert_eq!(domain_ptr.to_bytes(), expected_ptr.to_bytes());
    assert!(remaining_labels.is_empty());

    // Test subdomain
    let partial_labels = vec![
        DomainLabel::try_from("stripe").unwrap(),
        DomainLabel::try_from("com").unwrap(),
    ];
    let (domain_ptr, remaining_labels) = label_map.get_domain_ptr(&partial_labels).unwrap();
    let expected_offset = offset + labels[0].len_bytes() as u16;
    let expected_ptr = DomainPointer::new(expected_offset);
    assert_eq!(domain_ptr.to_bytes(), expected_ptr.to_bytes());
    assert_eq!(remaining_labels, vec![]);

    // Test subdomain with remaining labels
    let partial_labels = vec![
        DomainLabel::try_from("docs").unwrap(),
        DomainLabel::try_from("stripe").unwrap(),
        DomainLabel::try_from("com").unwrap(),
    ];
    let (domain_ptr, remaining_labels) = label_map.get_domain_ptr(&partial_labels).unwrap();
    let expected_offset = offset + labels[0].len_bytes() as u16;
    let expected_ptr = DomainPointer::new(expected_offset);
    assert_eq!(domain_ptr.to_bytes(), expected_ptr.to_bytes());
    assert_eq!(remaining_labels, vec![partial_labels[0].clone()]);
}

#[test]
fn test_longest_suffix_preference() {
    // "com" recorded at one offset and "google.com" at another: compressing
    // "sheets.google.com" must point at the longer match.
    let mut label_map = LabelMap::new();
    let com = vec![DomainLabel::try_from("com").unwrap()];
    let google_com = vec![
        DomainLabel::try_from("google").unwrap(),
        DomainLabel::try_from("com").unwrap(),
    ];
    let offset_x = 12;
    let offset_y = 40;
    label_map.insert(&com, offset_x);
    label_map.insert(&google_com, offset_y);

    let query = vec![
        DomainLabel::try_from("sheets").unwrap(),
        DomainLabel::try_from("google").unwrap(),
        DomainLabel::try_from("com").unwrap(),
    ];
    let (domain_ptr, remaining_labels) = label_map.get_domain_ptr(&query).unwrap();
    assert_eq!(domain_ptr.offset(), offset_y);
    assert_eq!(remaining_labels, vec![query[0].clone()]);
}

#[test]
fn test_label_map_case_insensitive_and_clear() {
    let mut label_map = LabelMap::new();
    let labels = vec![
        DomainLabel::try_from("Example").unwrap(),
        DomainLabel::try_from("COM").unwrap(),
    ];
    label_map.insert(&labels, 7);
    let query = vec![
        DomainLabel::try_from("example").unwrap(),
        DomainLabel::try_from("com").unwrap(),
    ];
    assert_eq!(label_map.get_offset(&query), Some(7));
    // re-inserting a recorded suffix is a no-op and keeps the first offset
    let result = label_map.insert(&query, 99);
    assert_eq!(result.inserted_records, 0);
    assert_eq!(label_map.get_offset(&query), Some(7));

    label_map.clear();
    assert_eq!(label_map.get_offset(&query), None);
}
