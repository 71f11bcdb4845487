use libdns::create_pointer;
use libdns::label::DomainLabel;
use libdns::label_map::LabelMap;
use libdns::name::{DomainName, DomainNameValidationError};

#[test]
fn test_to_bytes() {
    let domain_name = DomainName::try_from("outlook.live.com").unwrap();
    let expected_tags: Vec<u8> = vec![
        vec![7, 111, 117, 116, 108, 111, 111, 107],
        vec![4, 108, 105, 118, 101],
        vec![3, 99, 111, 109],
        vec![0],
    ]
    .into_iter()
    .flatten()
    .collect();

    let domain_bytes = domain_name.to_bytes();
    assert_eq!(expected_tags, domain_bytes);
}

#[test]
fn test_to_bytes_compressed() {
    // Test that output will be same as non-compressed version with empty map
    let mut label_map = LabelMap::new();
    let offset = 19;
    let full_domain_name = DomainName::try_from("outlook.live.com").unwrap();
    let expected_bytes: Vec<u8> = vec![
        vec![7, 111, 117, 116, 108, 111, 111, 107],
        vec![4, 108, 105, 118, 101],
        vec![3, 99, 111, 109],
        vec![0],
    ]
    .into_iter()
    .flatten()
    .collect();

    let result = full_domain_name.to_bytes_compressed(offset, &mut label_map);
    let new_offset = offset + (expected_bytes.len() as u16);
    assert_eq!(expected_bytes, result.compressed_bytes);
    assert_eq!(new_offset, result.new_offset);

    // Test with full domain present in the map
    let result = full_domain_name.to_bytes_compressed(new_offset, &mut label_map);
    // With the full domain, only a single domain pointer to the original offset
    // should be returned
    let expected_bytes = create_pointer(offset).to_be_bytes().to_vec();
    let new_offset = new_offset + 2;
    assert_eq!(expected_bytes, result.compressed_bytes);
    assert_eq!(new_offset, result.new_offset);

    // Test with "live.com" in the label_map
    label_map.clear();
    let offset = 31;
    let partial_domain_name = DomainName::try_from("live.com").unwrap();
    let inserted_labels = partial_domain_name.labels();
    label_map.insert(inserted_labels, offset);
    // We should have the uncompressed bytes for "outlook" and then the domain
    // pointer to "live.com"
    let expected_bytes: Vec<u8> = vec![
        vec![7, 111, 117, 116, 108, 111, 111, 107],
        create_pointer(offset).to_be_bytes().to_vec(),
    ]
    .into_iter()
    .flatten()
    .collect();
    let result = full_domain_name.to_bytes_compressed(offset, &mut label_map);
    let new_offset = offset + (expected_bytes.len() as u16);
    assert_eq!(expected_bytes, result.compressed_bytes);
    assert_eq!(new_offset, result.new_offset);

    // Test with "com" in the label_map
    label_map.clear();
    let offset = 47;
    let com_labels = vec![DomainLabel::try_from("com").unwrap()];
    label_map.insert(&com_labels, offset);
    // We should have the uncompressed bytes for "outlook" and "live" and then
    // the domain pointer to "com"
    let expected_bytes: Vec<u8> = vec![
        vec![7, 111, 117, 116, 108, 111, 111, 107],
        vec![4, 108, 105, 118, 101],
        create_pointer(offset).to_be_bytes().to_vec(),
    ]
    .into_iter()
    .flatten()
    .collect();
    let result = full_domain_name.to_bytes_compressed(offset, &mut label_map);
    let new_offset = offset + (expected_bytes.len() as u16);
    assert_eq!(expected_bytes, result.compressed_bytes);
    assert_eq!(new_offset, result.new_offset);
}

#[test]
fn test_domain_name_parse() {
    let bytes = [
        4, b'd', b'o', b'c', b's', 9, b'r', b'u', b's', b't', b'-', b'l', b'a', b'n', b'g', 3,
        b'o', b'r', b'g', 0,
    ];

    let (domain_name, consumed) = DomainName::parse(&bytes).unwrap();
    // the terminating root label is consumed but not kept among the labels
    assert_eq!(domain_name.labels().len(), 3);
    assert_eq!(consumed, bytes.len());

    // Test without null terminator
    let bytes = [5, b'e', b'r', b'r', b'o', b'r', 3, b'o', b'r', b'g'];

    let result = DomainName::parse(&bytes);
    assert!(result.is_err());
}

#[test]
fn test_domain_name_parse_compressed() {
    // Create a compressed domain name
    let mut label_map = LabelMap::new();
    let offset = 0;
    let original_domain = DomainName::try_from("chat.openai.com").unwrap();
    let outcome = original_domain.to_bytes_compressed(offset, &mut label_map);
    let compressed_message = outcome.compressed_bytes;

    let (parsed_domain, new_offset) =
        DomainName::parse_compressed(&compressed_message, offset).unwrap();
    assert_eq!(original_domain, parsed_domain);
    assert_eq!(outcome.new_offset, new_offset);
}

#[test]
fn test_name_roundtrip_identity() {
    for text in ["a", "audi.com", "sheets.google.com", "x1.y-2.zzz.example"] {
        let name = DomainName::try_from(text).unwrap();
        let bytes = name.to_bytes();
        let (parsed, consumed) = DomainName::parse(&bytes).unwrap();
        assert_eq!(parsed, name);
        assert_eq!(consumed, bytes.len());
    }
}

#[test]
fn test_name_boundary_255() {
    // four labels of 63 octets and one of 3: 255 octets of text in all
    let l63 = "a".repeat(63);
    let exactly_255 = format!("{l63}.{l63}.{l63}.{l63}.abc");
    assert!(DomainName::try_from(exactly_255.as_str()).is_ok());
    let exactly_256 = format!("{l63}.{l63}.{l63}.{l63}.abcd");
    assert_eq!(
        DomainName::try_from(exactly_256.as_str()),
        Err(DomainNameValidationError::NameTooLong)
    );
}

#[test]
fn test_name_eq_case_insensitive() {
    let a = DomainName::try_from("Sheets.GOOGLE.com").unwrap();
    let b = DomainName::try_from("sheets.google.COM").unwrap();
    let c = DomainName::try_from("docs.google.com").unwrap();
    assert_eq!(a, b);
    assert_ne!(a, c);
    // names of different length never compare equal
    let d = DomainName::try_from("google.com").unwrap();
    assert_ne!(a, d);
}

#[test]
fn test_parse_compressed_multi_hop_and_errors() {
    // "com" at offset 0; "google.com" at 5 ends with a pointer to 0;
    // "sheets.google.com" at 14 ends with a pointer to 5: a two-hop chain.
    let mut message: Vec<u8> = vec![3, b'c', b'o', b'm', 0];
    message.extend([6, b'g', b'o', b'o', b'g', b'l', b'e']);
    message.extend(create_pointer(0).to_be_bytes());
    message.extend([6, b's', b'h', b'e', b'e', b't', b's']);
    message.extend(create_pointer(5).to_be_bytes());

    let (parsed, end) = DomainName::parse_compressed(&message, 14).unwrap();
    assert_eq!(parsed, DomainName::try_from("sheets.google.com").unwrap());
    assert_eq!(end as usize, message.len());

    // a pointer that does not lead strictly backwards is rejected
    let forward: Vec<u8> = vec![3, b'c', b'o', b'm', 0xC0, 9];
    let result = DomainName::parse_compressed(&forward, 0);
    assert_eq!(result.unwrap_err(), libdns::ParseDataError::InvalidDomainPointer);

    // a buffer without a root label is rejected
    let unterminated: Vec<u8> = vec![3, b'c', b'o', b'm'];
    let result = DomainName::parse_compressed(&unterminated, 0);
    assert_eq!(result.unwrap_err(), libdns::ParseDataError::InvalidByteStructure);
}
