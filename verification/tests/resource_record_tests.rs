use libdns::label_map::LabelMap;
use libdns::name::DomainName;
use libdns::rdata::{ARdata, CnameBytes, NsdnameBytes, PtrBytes, SoaBytes, TxtBytes};
use libdns::resource_record::{Rdata, ResourceRecord, ResourceRecordSection};
use libdns::rr_types::{ResourceRecordClass, ResourceRecordType};
use libdns::types::CharacterString;

const EXAMPLE_DOMAIN_BYTES: [u8; 13] = [7, 101, 120, 97, 109, 112, 108, 101, 3, 99, 111, 109, 0];
const EXAMPLE_DOMAIN: &str = "example.com";

/// Create the expected bytes for the initial section of the resource record,
/// which is common across all of the testing functions here
fn create_expected_bytes(
    name: &DomainName,
    rtype: ResourceRecordType,
    class: ResourceRecordClass,
    ttl: i32,
    rdlength: usize,
) -> Vec<u8> {
    let mut bytes = Vec::with_capacity(8);
    bytes.extend(rtype.code().to_be_bytes());
    bytes.extend(class.code().to_be_bytes());
    bytes.extend(ttl.to_be_bytes());
    bytes.extend((rdlength as u16).to_be_bytes());

    name.to_bytes().into_iter().chain(bytes).collect()
}

/// Utility function for bulk creating a set of `ResourceRecord` instances and
/// bundling them into a `ResourceRecordSection` struct
fn create_resource_record_section(rr_details: &[(&str, [u8; 4])]) -> ResourceRecordSection {
    let rrs = rr_details
        .iter()
        .map(|(domain_name_str, addr)| {
            let domain_name = DomainName::try_from(*domain_name_str).unwrap();
            let ardata = ARdata::new(*addr);
            let rdata = Rdata::A(ardata);
            let r_type = ResourceRecordType::A;
            let r_class = ResourceRecordClass::In;
            let ttl = 86400;
            ResourceRecord::new(domain_name.clone(), r_type, r_class, ttl, rdata)
        })
        .collect::<Vec<_>>();
    ResourceRecordSection::new(rrs)
}

fn create_expected_rr_section_bytes(rr_section: &ResourceRecordSection) -> Vec<u8> {
    rr_section
        .records()
        .iter()
        .flat_map(|rr| {
            let rdata_bytes = rr.rdata().to_bytes();
            let mut rr_initial = create_expected_bytes(
                rr.name(),
                rr.rtype(),
                rr.class(),
                rr.ttl(),
                rdata_bytes.len(),
            );
            rr_initial.extend(rdata_bytes);
            rr_initial
        })
        .collect()
}

#[test]
fn test_resource_record_a_to_bytes() {
    // Test with a simple A record
    let octets = [111, 2, 0, 41];
    let ardata = ARdata::new(octets);
    let ardata_bytes = ardata.to_bytes();
    let rdlength = ardata_bytes.len();
    let rdata = Rdata::A(ardata);

    let name = DomainName::try_from(EXAMPLE_DOMAIN).unwrap();
    let rtype = ResourceRecordType::A;
    let class = ResourceRecordClass::In;
    let ttl = 1132;

    // Create expected bytes
    let mut expected_bytes = create_expected_bytes(&name, rtype, class, ttl, rdlength);
    expected_bytes.extend(ardata_bytes);

    let rr = ResourceRecord::new(name, rtype, class, ttl, rdata);
    let bytes = rr.to_bytes();
    assert_eq!(bytes, expected_bytes);
}

#[test]
fn test_resource_record_a_parse() {
    let mut bytes_to_parse = Vec::from(EXAMPLE_DOMAIN_BYTES);
    let expected_rr_type = ResourceRecordType::A;
    let expected_rr_class = ResourceRecordClass::In;
    let expected_ttl: i32 = 86400;
    let expected_domain = DomainName::try_from(EXAMPLE_DOMAIN).unwrap();

    let octets = [100, 201, 192, 61];
    let expected_ardata = ARdata::new(octets);
    let expected_ardata_bytes = expected_ardata.to_bytes();

    bytes_to_parse.extend(expected_rr_type.code().to_be_bytes());
    bytes_to_parse.extend(expected_rr_class.code().to_be_bytes());
    bytes_to_parse.extend(expected_ttl.to_be_bytes());
    bytes_to_parse.extend((expected_ardata_bytes.len() as u16).to_be_bytes());
    bytes_to_parse.extend(expected_ardata.to_bytes());

    let (rr, consumed) = ResourceRecord::parse(&bytes_to_parse).unwrap();
    assert_eq!(consumed, bytes_to_parse.len());
    assert_eq!(rr.name(), &expected_domain);
    assert_eq!(rr.rtype(), expected_rr_type);
    assert_eq!(rr.class(), expected_rr_class);
    assert_eq!(rr.ttl(), expected_ttl);
    assert_eq!(rr.rdata(), &Rdata::A(expected_ardata));
}

#[test]
fn test_resource_record_ns_to_bytes() {
    let ns_name = "ns.example.com";
    let domain_name = DomainName::try_from(ns_name).unwrap();
    let ns = NsdnameBytes::new(domain_name);
    let ns_bytes = ns.to_bytes();
    let rdlength = ns_bytes.len();
    let rdata = Rdata::Ns(ns);

    let name = DomainName::try_from(EXAMPLE_DOMAIN).unwrap();
    let rtype = ResourceRecordType::Ns;
    let class = ResourceRecordClass::In;
    let ttl = 11932;

    // Create expected bytes
    let mut expected_bytes = create_expected_bytes(&name, rtype, class, ttl, rdlength);
    expected_bytes.extend(ns_bytes);

    let rr = ResourceRecord::new(name, rtype, class, ttl, rdata);
    let bytes = rr.to_bytes();
    assert_eq!(bytes, expected_bytes);
}

#[test]
fn test_resource_record_ns_parse() {
    let mut bytes_to_parse = Vec::from(EXAMPLE_DOMAIN_BYTES);
    let expected_rr_type = ResourceRecordType::Ns;
    let expected_rr_class = ResourceRecordClass::In;
    let expected_ttl: i32 = 86400;
    let expected_domain = DomainName::try_from(EXAMPLE_DOMAIN).unwrap();

    let ns_domain = "ns.example.com";
    let expected_ns_domain = DomainName::try_from(ns_domain).unwrap();
    let expected_ns = NsdnameBytes::new(expected_ns_domain);
    let expected_ns_bytes = expected_ns.to_bytes();

    bytes_to_parse.extend(expected_rr_type.code().to_be_bytes());
    bytes_to_parse.extend(expected_rr_class.code().to_be_bytes());
    bytes_to_parse.extend(expected_ttl.to_be_bytes());
    bytes_to_parse.extend((expected_ns_bytes.len() as u16).to_be_bytes());
    bytes_to_parse.extend(expected_ns.to_bytes());

    let (rr, consumed) = ResourceRecord::parse(&bytes_to_parse).unwrap();
    assert_eq!(consumed, bytes_to_parse.len());
    assert_eq!(rr.name(), &expected_domain);
    assert_eq!(rr.rtype(), expected_rr_type);
    assert_eq!(rr.class(), expected_rr_class);
    assert_eq!(rr.ttl(), expected_ttl);
    assert_eq!(rr.rdata(), &Rdata::Ns(expected_ns));
}

#[test]
fn test_resource_record_ptr_to_bytes() {
    let subdomain = "sub.example.com";
    let subdomain_name = DomainName::try_from(subdomain).unwrap();
    let ptr = PtrBytes::new(subdomain_name);
    let ptr_bytes = ptr.to_bytes();
    let rdlength = ptr_bytes.len();
    let rdata = Rdata::Ptr(ptr);

    let name = DomainName::try_from(EXAMPLE_DOMAIN).unwrap();
    let rtype = ResourceRecordType::Ptr;
    let class = ResourceRecordClass::In;
    let ttl = 11932;

    // Create expected bytes
    let mut expected_bytes = create_expected_bytes(&name, rtype, class, ttl, rdlength);
    expected_bytes.extend(ptr_bytes);

    let rr = ResourceRecord::new(name, rtype, class, ttl, rdata);
    let bytes = rr.to_bytes();
    assert_eq!(bytes, expected_bytes);
}

#[test]
fn test_resource_record_ptr_parse() {
    let mut bytes_to_parse = Vec::from(EXAMPLE_DOMAIN_BYTES);
    let expected_rr_type = ResourceRecordType::Ptr;
    let expected_rr_class = ResourceRecordClass::In;
    let expected_ttl: i32 = 86400;
    let expected_domain = DomainName::try_from(EXAMPLE_DOMAIN).unwrap();

    let ptr_domain = "sub.example.com";
    let expected_ptr_domain = DomainName::try_from(ptr_domain).unwrap();
    let expected_ptr = PtrBytes::new(expected_ptr_domain);
    let expected_ptr_bytes = expected_ptr.to_bytes();

    bytes_to_parse.extend(expected_rr_type.code().to_be_bytes());
    bytes_to_parse.extend(expected_rr_class.code().to_be_bytes());
    bytes_to_parse.extend(expected_ttl.to_be_bytes());
    bytes_to_parse.extend((expected_ptr_bytes.len() as u16).to_be_bytes());
    bytes_to_parse.extend(expected_ptr.to_bytes());

    let (rr, consumed) = ResourceRecord::parse(&bytes_to_parse).unwrap();
    assert_eq!(consumed, bytes_to_parse.len());
    assert_eq!(rr.name(), &expected_domain);
    assert_eq!(rr.rtype(), expected_rr_type);
    assert_eq!(rr.class(), expected_rr_class);
    assert_eq!(rr.ttl(), expected_ttl);
    assert_eq!(rr.rdata(), &Rdata::Ptr(expected_ptr));
}

#[test]
fn test_resource_record_cname_to_bytes() {
    let cname_domain = "cname.example.com";
    let cname_domain_name = DomainName::try_from(cname_domain).unwrap();
    let cname = CnameBytes::new(cname_domain_name);
    let cname_bytes = cname.to_bytes();
    let rdlength = cname_bytes.len();
    let rdata = Rdata::Cname(cname);

    let name = DomainName::try_from(EXAMPLE_DOMAIN).unwrap();
    let rtype = ResourceRecordType::Cname;
    let class = ResourceRecordClass::In;
    let ttl = 21274;

    // Create expected bytes
    let mut expected_bytes = create_expected_bytes(&name, rtype, class, ttl, rdlength);
    expected_bytes.extend(cname_bytes);

    let rr = ResourceRecord::new(name, rtype, class, ttl, rdata);
    let bytes = rr.to_bytes();
    assert_eq!(bytes, expected_bytes);
}

#[test]
fn test_resource_record_cname_parse() {
    let mut bytes_to_parse = Vec::from(EXAMPLE_DOMAIN_BYTES);
    let expected_rr_type = ResourceRecordType::Cname;
    let expected_rr_class = ResourceRecordClass::In;
    let expected_ttl: i32 = 86400;
    let expected_domain = DomainName::try_from(EXAMPLE_DOMAIN).unwrap();

    let cname_domain = "cname.example.com";
    let expected_cname_domain = DomainName::try_from(cname_domain).unwrap();
    let expected_cname = CnameBytes::new(expected_cname_domain);
    let expected_cname_bytes = expected_cname.to_bytes();

    bytes_to_parse.extend(expected_rr_type.code().to_be_bytes());
    bytes_to_parse.extend(expected_rr_class.code().to_be_bytes());
    bytes_to_parse.extend(expected_ttl.to_be_bytes());
    bytes_to_parse.extend((expected_cname_bytes.len() as u16).to_be_bytes());
    bytes_to_parse.extend(expected_cname.to_bytes());

    let (rr, consumed) = ResourceRecord::parse(&bytes_to_parse).unwrap();
    assert_eq!(consumed, bytes_to_parse.len());
    assert_eq!(rr.name(), &expected_domain);
    assert_eq!(rr.rtype(), expected_rr_type);
    assert_eq!(rr.class(), expected_rr_class);
    assert_eq!(rr.ttl(), expected_ttl);
    assert_eq!(rr.rdata(), &Rdata::Cname(expected_cname));
}

#[test]
fn test_resource_record_soa_to_bytes() {
    let mname = "ns.example.com";
    let maname_domain = DomainName::try_from(mname).unwrap();
    let rname = "hostmaster.example.com";
    let rname_domain = DomainName::try_from(rname).unwrap();
    let serial = 2024011001;
    let refresh = 3600;
    let retry = 300;
    let expire = 1814400;
    let minimum = 600;

    let soa = SoaBytes::new(
        maname_domain,
        rname_domain,
        serial,
        refresh,
        retry,
        expire,
        minimum,
    );
    let soa_bytes = soa.to_bytes();
    let rdlength = soa_bytes.len();
    let rdata = Rdata::Soa(soa);

    let name = DomainName::try_from(EXAMPLE_DOMAIN).unwrap();
    let rtype = ResourceRecordType::Soa;
    let class = ResourceRecordClass::In;
    let ttl = 21274;

    // Create expected bytes
    let mut expected_bytes = create_expected_bytes(&name, rtype, class, ttl, rdlength);
    expected_bytes.extend(soa_bytes);

    let rr = ResourceRecord::new(name, rtype, class, ttl, rdata);
    let bytes = rr.to_bytes();
    assert_eq!(bytes, expected_bytes);
}

#[test]
fn test_resource_record_soa_parse() {
    let mut bytes_to_parse = Vec::from(EXAMPLE_DOMAIN_BYTES);
    let expected_rr_type = ResourceRecordType::Soa;
    let expected_rr_class = ResourceRecordClass::In;
    let expected_ttl: i32 = 86400;
    let expected_domain = DomainName::try_from(EXAMPLE_DOMAIN).unwrap();

    let mname = "ns.example.com";
    let maname_domain = DomainName::try_from(mname).unwrap();
    let rname = "hostmaster.example.com";
    let rname_domain = DomainName::try_from(rname).unwrap();
    let serial = 2024011001;
    let refresh = 3600;
    let retry = 300;
    let expire = 1814400;
    let minimum = 600;
    let expected_soa = SoaBytes::new(
        maname_domain,
        rname_domain,
        serial,
        refresh,
        retry,
        expire,
        minimum,
    );
    let expected_soa_bytes = expected_soa.to_bytes();

    bytes_to_parse.extend(expected_rr_type.code().to_be_bytes());
    bytes_to_parse.extend(expected_rr_class.code().to_be_bytes());
    bytes_to_parse.extend(expected_ttl.to_be_bytes());
    bytes_to_parse.extend((expected_soa_bytes.len() as u16).to_be_bytes());
    bytes_to_parse.extend(expected_soa.to_bytes());

    let (rr, consumed) = ResourceRecord::parse(&bytes_to_parse).unwrap();
    assert_eq!(consumed, bytes_to_parse.len());
    assert_eq!(rr.name(), &expected_domain);
    assert_eq!(rr.rtype(), expected_rr_type);
    assert_eq!(rr.class(), expected_rr_class);
    assert_eq!(rr.ttl(), expected_ttl);
    assert_eq!(rr.rdata(), &Rdata::Soa(expected_soa));
}

#[test]
fn test_resource_record_txt_to_bytes() {
    let txt_data = vec![
        CharacterString::try_from("Shadowheart").unwrap(),
        CharacterString::try_from("Wyll").unwrap(),
    ];
    let txt = TxtBytes::new(txt_data);
    let txt_bytes = txt.to_bytes();
    let rdlength = txt_bytes.len();
    let rdata = Rdata::Txt(txt);

    let name = DomainName::try_from(EXAMPLE_DOMAIN).unwrap();
    let rtype = ResourceRecordType::Cname;
    let class = ResourceRecordClass::In;
    let ttl = 21274;

    // Create expected bytes
    let mut expected_bytes = create_expected_bytes(&name, rtype, class, ttl, rdlength);
    expected_bytes.extend(txt_bytes);

    let rr = ResourceRecord::new(name, rtype, class, ttl, rdata);
    let bytes = rr.to_bytes();
    assert_eq!(bytes, expected_bytes);
}

#[test]
fn test_resource_record_txt_parse() {
    let mut bytes_to_parse = Vec::from(EXAMPLE_DOMAIN_BYTES);
    let expected_rr_type = ResourceRecordType::Txt;
    let expected_rr_class = ResourceRecordClass::In;
    let expected_ttl: i32 = 86400;
    let expected_domain = DomainName::try_from(EXAMPLE_DOMAIN).unwrap();

    let expected_txt_data = vec![
        CharacterString::try_from("Karlach").unwrap(),
        CharacterString::try_from("Lae'zel").unwrap(),
    ];
    let expected_txt = TxtBytes::new(expected_txt_data);
    let expected_txt_bytes = expected_txt.to_bytes();

    bytes_to_parse.extend(expected_rr_type.code().to_be_bytes());
    bytes_to_parse.extend(expected_rr_class.code().to_be_bytes());
    bytes_to_parse.extend(expected_ttl.to_be_bytes());
    bytes_to_parse.extend((expected_txt_bytes.len() as u16).to_be_bytes());
    bytes_to_parse.extend(expected_txt.to_bytes());

    let (rr, consumed) = ResourceRecord::parse(&bytes_to_parse).unwrap();
    assert_eq!(consumed, bytes_to_parse.len());
    assert_eq!(rr.name(), &expected_domain);
    assert_eq!(rr.rtype(), expected_rr_type);
    assert_eq!(rr.class(), expected_rr_class);
    assert_eq!(rr.ttl(), expected_ttl);
    assert_eq!(rr.rdata(), &Rdata::Txt(expected_txt));
}

#[test]
fn test_resource_record_section_to_bytes() {
    let rr_details = vec![
        ("facebook.com", [192, 168, 1, 5]),
        ("google.com", [192, 168, 1, 15]),
        ("fellow.net", [192, 168, 1, 18]),
        ("polonium.io", [192, 168, 1, 19]),
        ("soixante.fr", [192, 168, 1, 20]),
    ];

    let rr_section = create_resource_record_section(&rr_details);
    let expected_bytes = create_expected_rr_section_bytes(&rr_section);

    let bytes = rr_section.to_bytes();
    assert_eq!(bytes, expected_bytes);
}

#[test]
fn test_resource_record_section_parse() {
    let original_rr_details = vec![
        ("facebook.com", [192, 168, 1, 5]),
        ("google.com", [192, 168, 1, 15]),
        ("fellow.net", [192, 168, 1, 18]),
        ("polonium.io", [192, 168, 1, 19]),
        ("soixante.fr", [192, 168, 1, 20]),
    ];

    let rr_section_to_parse = create_resource_record_section(&original_rr_details);
    let serialized_bytes = create_expected_rr_section_bytes(&rr_section_to_parse);

    let (parsed_rr_section, consumed) =
        ResourceRecordSection::parse(&serialized_bytes, 5).unwrap();
    assert_eq!(rr_section_to_parse, parsed_rr_section);
    assert_eq!(consumed, serialized_bytes.len());
}

#[test]
fn test_resource_record_section_parse_corrupted_bytes() {
    let original_rr_details = vec![
        ("facebook.com", [192, 168, 1, 5]),
        ("google.com", [192, 168, 1, 15]),
    ];
    let rr_section_to_parse = create_resource_record_section(&original_rr_details);
    let rr_section_bytes = create_expected_rr_section_bytes(&rr_section_to_parse);

    // Test with random data in front of the correct bytes
    let mut corrupted = vec![21u8, 3u8, 114u8, 0u8, 0u8];
    corrupted.extend(rr_section_bytes.clone());
    let result = ResourceRecordSection::parse(&corrupted, 2);
    assert!(result.is_err());

    // Test with random data in the middle of the correct bytes
    let random_data = vec![73u8, 13u8, 91u8, 0u8, 10u8, 0u8, 141u8, 93u8];
    let part1 = &rr_section_bytes[0..11];
    let part2 = &rr_section_bytes[12..];
    let corrupted = [part1, &random_data, part2].concat();
    let result = ResourceRecordSection::parse(&corrupted, 2);
    assert!(result.is_err());

    let part1 = &rr_section_bytes[0..2];
    let part2 = &rr_section_bytes[2..];
    let corrupted = [part1, &random_data, part2].concat();
    let result = ResourceRecordSection::parse(&corrupted, 2);
    assert!(result.is_err());
}

#[test]
fn test_resource_record_compressed_roundtrip() {
    // the owner name is compressed against the dictionary; the record parses
    // back from the full message
    let mut label_map = LabelMap::new();
    let first = ResourceRecord::new(
        DomainName::try_from("example.com").unwrap(),
        ResourceRecordType::A,
        ResourceRecordClass::In,
        3600,
        Rdata::A(ARdata::new([10, 0, 0, 1])),
    );
    let second = ResourceRecord::new(
        DomainName::try_from("www.example.com").unwrap(),
        ResourceRecordType::A,
        ResourceRecordClass::In,
        7200,
        Rdata::A(ARdata::new([10, 0, 0, 2])),
    );
    let out1 = first.to_bytes_compressed(0, &mut label_map);
    let mut message = out1.compressed_bytes;
    let out2 = second.to_bytes_compressed(out1.new_offset, &mut label_map);
    message.extend(out2.compressed_bytes.clone());
    // the second owner name must have been compressed down to one label and a
    // pointer
    assert!(out2.compressed_bytes.len() < second.to_bytes().len());

    let (parsed1, end1) = ResourceRecord::parse_compressed(&message, 0).unwrap();
    let (parsed2, end2) = ResourceRecord::parse_compressed(&message, end1).unwrap();
    assert_eq!(&parsed1, &first);
    assert_eq!(&parsed2, &second);
    assert_eq!(end2 as usize, message.len());
}

#[test]
fn test_resource_record_section_compressed_roundtrip() {
    let rr_details = vec![
        ("example.com", [10, 0, 0, 1]),
        ("www.example.com", [10, 0, 0, 2]),
        ("mail.example.com", [10, 0, 0, 3]),
    ];
    let section = create_resource_record_section(&rr_details);

    let mut label_map = LabelMap::new();
    let outcome = section.to_bytes_compressed(0, &mut label_map);
    let wire = outcome.compressed_bytes;
    assert_eq!(outcome.new_offset as usize, wire.len());
    // shared suffixes make the compressed form strictly shorter
    assert!(wire.len() < section.to_bytes().len());

    let (parsed, end) = ResourceRecordSection::parse_compressed(&wire, 0, 3).unwrap();
    assert_eq!(end as usize, wire.len());
    assert_eq!(parsed, section);
}

#[test]
fn test_resource_record_unknown_type_rejected() {
    // TYPE 15 (mail exchange) has no decoder in this codec, so the record
    // fails to parse as a whole
    let mut bytes_to_parse = Vec::from(EXAMPLE_DOMAIN_BYTES);
    bytes_to_parse.extend(15u16.to_be_bytes());
    bytes_to_parse.extend(1u16.to_be_bytes());
    bytes_to_parse.extend(86400i32.to_be_bytes());
    bytes_to_parse.extend(4u16.to_be_bytes());
    bytes_to_parse.extend([1, 2, 3, 4]);
    assert!(ResourceRecord::parse(&bytes_to_parse).is_err());
    assert!(Rdata::parse(ResourceRecordType::Mx, &[1, 2, 3, 4]).is_none());
}
