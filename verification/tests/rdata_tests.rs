use libdns::name::DomainName;
use libdns::rdata::{ARdata, CnameBytes, NsdnameBytes, PtrBytes, SoaBytes, TxtBytes};
use libdns::types::CharacterString;

#[test]
fn test_ardata_to_bytes() {
    let octets = [132, 142, 0, 212];
    let ardata = ARdata::new(octets);
    let bytes = ardata.to_bytes();
    assert_eq!(bytes, octets);
}

#[test]
fn test_ardata_parse() {
    let bytes = [213, 12, 108, 95];
    let (ardata, _) = ARdata::parse(&bytes).unwrap();
    let expected_addr = [bytes[0], bytes[1], bytes[2], bytes[3]];
    assert_eq!(ardata.address(), expected_addr);
}

#[test]
fn test_parse_cname_bytes() {
    let domain = DomainName::try_from("bing.com").unwrap();
    let expected_bytes = domain.to_bytes();
    let (cname, _) = CnameBytes::parse(&expected_bytes).unwrap();
    assert_eq!(cname.name(), &domain);
}

#[test]
fn test_parse_nsdname_bytes() {
    let domain = DomainName::try_from("stackoverflow.com").unwrap();
    let expected_bytes = domain.to_bytes();
    let (nsdname, _) = NsdnameBytes::parse(&expected_bytes).unwrap();
    assert_eq!(nsdname.name(), &domain);
}

#[test]
fn test_parse_ptr_bytes() {
    let domain = DomainName::try_from("playground.net").unwrap();
    let expected_bytes = domain.to_bytes();
    let (ptrdname, _) = PtrBytes::parse(&expected_bytes).unwrap();
    assert_eq!(ptrdname.name(), &domain);
}

#[test]
fn test_serialize_soa_bytes() {
    let mname = DomainName::try_from("ns1.example.com").unwrap();
    let rname = DomainName::try_from("mail.example.com").unwrap();
    let serial: u32 = 2023113001;
    let refresh: u32 = 3600;
    let retry: u32 = 600;
    let expire: u32 = 5184000;
    let minimum: u32 = 60;

    let mut bytes = Vec::new();
    bytes.extend(mname.to_bytes());
    bytes.extend(rname.to_bytes());
    bytes.extend(serial.to_be_bytes());
    bytes.extend(refresh.to_be_bytes());
    bytes.extend(retry.to_be_bytes());
    bytes.extend(expire.to_be_bytes());
    bytes.extend(minimum.to_be_bytes());

    let soa = SoaBytes::new(
        mname.clone(),
        rname.clone(),
        serial,
        refresh,
        retry,
        expire,
        minimum,
    );
    let serialized_bytes = soa.to_bytes();
    assert_eq!(bytes, serialized_bytes)
}

#[test]
fn test_parse_soa_bytes() {
    let mname = DomainName::try_from("ns1.example.com").unwrap();
    let rname = DomainName::try_from("mail.example.com").unwrap();
    let serial: u32 = 2023113001;
    let refresh: u32 = 3600;
    let retry: u32 = 600;
    let expire: u32 = 5184000;
    let minimum: u32 = 60;
    let soa = SoaBytes::new(
        mname.clone(),
        rname.clone(),
        serial,
        refresh,
        retry,
        expire,
        minimum,
    );

    let expected_bytes = soa.to_bytes();
    let (parsed_soa, _) = SoaBytes::parse(&expected_bytes).unwrap();
    assert_eq!(parsed_soa.mname(), &mname);
    assert_eq!(parsed_soa.rname(), &rname);
    assert_eq!(parsed_soa.serial(), serial);
    assert_eq!(parsed_soa.refresh(), refresh);
    assert_eq!(parsed_soa.retry(), retry);
    assert_eq!(parsed_soa.expire(), expire);
    assert_eq!(parsed_soa.minimum(), minimum);
}

#[test]
fn test_serialize_txt_bytes() {
    let charstr1 = CharacterString::try_from("En").unwrap();
    let charstr2 = CharacterString::try_from("Taro").unwrap();
    let charstr3 = CharacterString::try_from("Adun").unwrap();

    let bytes = charstr1.to_bytes();
    let txt = TxtBytes::new(vec![charstr1.clone()]);
    let txt_bytes = txt.to_bytes();
    assert_eq!(bytes, txt_bytes);

    let bytes = bytes
        .into_iter()
        .chain(charstr2.to_bytes())
        .chain(charstr3.to_bytes())
        .collect::<Vec<_>>();
    let txt = TxtBytes::new(vec![charstr1, charstr2, charstr3]);
    let txt_bytes = txt.to_bytes();
    assert_eq!(bytes, txt_bytes);
}

#[test]
fn test_parse_txt_bytes() {
    let charstr1 = CharacterString::try_from("Hesitation").unwrap();
    let charstr2 = CharacterString::try_from("is").unwrap();
    let charstr3 = CharacterString::try_from("defeat").unwrap();

    let bytes = charstr1.to_bytes();
    let (txt_bytes, _) = TxtBytes::parse(&bytes).unwrap();
    assert_eq!(txt_bytes.texts(), &vec![charstr1.clone()]);

    let bytes = bytes
        .into_iter()
        .chain(charstr2.to_bytes())
        .chain(charstr3.to_bytes())
        .collect::<Vec<_>>();

    let (txt_bytes, _) = TxtBytes::parse(&bytes).unwrap();
    assert_eq!(txt_bytes.texts(), &vec![charstr1, charstr2, charstr3]);
}

#[test]
fn test_txt_multi_string_roundtrip() {
    // three character strings concatenated into one TXT RDATA parse back in
    // order, with the whole RDATA length consumed exactly
    let words = ["Hesitation", "is", "defeat"];
    let strings: Vec<CharacterString> = words
        .iter()
        .map(|w| CharacterString::try_from(*w).unwrap())
        .collect();
    let txt = TxtBytes::new(strings.clone());
    let rdata_bytes = txt.to_bytes();
    let rdlength = rdata_bytes.len();
    assert_eq!(rdlength, words.iter().map(|w| w.len() + 1).sum::<usize>());

    let (parsed, consumed) = TxtBytes::parse(&rdata_bytes).unwrap();
    assert_eq!(consumed, rdlength);
    assert_eq!(parsed.texts(), &strings);
    for (i, w) in words.iter().enumerate() {
        assert_eq!(parsed.texts()[i].as_bytes(), w.as_bytes());
    }
}
