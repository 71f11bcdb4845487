use libdns::create_pointer;
use libdns::label::DomainLabel;
use libdns::label_map::LabelMap;
use libdns::name::DomainName;
use libdns::question::{MessageQuestions, Question};
use libdns::rr_types::{Qtype, ResourceRecordQClass};

/// Utility function to generate `Question` struct instances for testing
fn create_question(domain_name_str: &str) -> Question {
    let domain_name = DomainName::try_from(domain_name_str).unwrap();
    Question::new(domain_name, Qtype::A, ResourceRecordQClass::In)
}

#[test]
fn test_question_to_bytes() {
    let qname = DomainName::try_from("sheets.google.com").unwrap();
    let qtype = Qtype::A;
    let qclass = ResourceRecordQClass::In;
    let question = Question::new(qname.clone(), qtype, qclass);

    let expected_bytes: Vec<u8> = [
        qname.to_bytes(),
        qtype.code().to_be_bytes().to_vec(),
        qclass.code().to_be_bytes().to_vec(),
    ]
    .into_iter()
    .flatten()
    .collect();
    let bytes = question.to_bytes();
    assert_eq!(bytes, expected_bytes);

    let qname = DomainName::try_from("audi.com").unwrap();
    let qtype = Qtype::A;
    let qclass = ResourceRecordQClass::In;
    let question = Question::new(qname.clone(), qtype, qclass);

    let expected_bytes: Vec<u8> = [
        qname.to_bytes(),
        qtype.code().to_be_bytes().to_vec(),
        qclass.code().to_be_bytes().to_vec(),
    ]
    .into_iter()
    .flatten()
    .collect();
    let bytes = question.to_bytes();
    assert_eq!(bytes, expected_bytes);
}

#[test]
fn test_question_to_bytes_compressed() {
    let qname = DomainName::try_from("sheets.google.com").unwrap();
    let qtype = Qtype::A;
    let qclass = ResourceRecordQClass::In;
    let question = Question::new(qname.clone(), qtype, qclass);

    let offset: u16 = 191;
    let mut label_map: LabelMap = LabelMap::new();
    // Test with no compression available
    let expected_bytes: Vec<u8> = [
        qname.to_bytes(),
        qtype.code().to_be_bytes().to_vec(),
        qclass.code().to_be_bytes().to_vec(),
    ]
    .into_iter()
    .flatten()
    .collect();
    let result = question.to_bytes_compressed(offset, &mut label_map);
    assert_eq!(result.compressed_bytes, expected_bytes);
    assert_eq!(result.new_offset, (expected_bytes.len() as u16) + offset);

    // Test with "google.com" compression available
    label_map.clear();
    let google_com_labels = vec![
        DomainLabel::try_from("google").unwrap(),
        DomainLabel::try_from("com").unwrap(),
    ];
    let google_com_offset = 46;
    let offset = 97;
    label_map.insert(&google_com_labels, google_com_offset);

    let expected_bytes: Vec<u8> = [
        DomainLabel::try_from("sheets").unwrap().to_bytes(),
        create_pointer(google_com_offset).to_be_bytes().to_vec(),
        qtype.code().to_be_bytes().to_vec(),
        qclass.code().to_be_bytes().to_vec(),
    ]
    .into_iter()
    .flatten()
    .collect();

    let result = question.to_bytes_compressed(offset, &mut label_map);
    assert_eq!(result.compressed_bytes, expected_bytes);
    assert_eq!(result.new_offset, (expected_bytes.len() as u16) + offset);

    // Test with ".com" compression available
    label_map.clear();
    let com_labels = vec![DomainLabel::try_from("com").unwrap()];
    let com_offset = 102;
    let offset = 55;
    label_map.insert(&com_labels, com_offset);

    let expected_bytes: Vec<u8> = [
        DomainLabel::try_from("sheets").unwrap().to_bytes(),
        DomainLabel::try_from("google").unwrap().to_bytes(),
        create_pointer(com_offset).to_be_bytes().to_vec(),
        qtype.code().to_be_bytes().to_vec(),
        qclass.code().to_be_bytes().to_vec(),
    ]
    .into_iter()
    .flatten()
    .collect();

    let result = question.to_bytes_compressed(offset, &mut label_map);
    assert_eq!(result.compressed_bytes, expected_bytes);
    assert_eq!(result.new_offset, (expected_bytes.len() as u16) + offset);
}

#[test]
fn test_message_questions_to_bytes_compressed() {
    let domain1 = DomainName::try_from("store.steampowered.com").unwrap();
    let domain2 = DomainName::try_from("example.com").unwrap();
    let domain3 = DomainName::try_from("twister.example.com").unwrap();
    let domain4 = DomainName::try_from("twister.hello.com").unwrap();

    let question1 = Question::new(domain1.clone(), Qtype::A, ResourceRecordQClass::In);
    let question2 = Question::new(domain2.clone(), Qtype::A, ResourceRecordQClass::In);
    let question3 = Question::new(domain3.clone(), Qtype::A, ResourceRecordQClass::In);
    let question4 = Question::new(domain4.clone(), Qtype::A, ResourceRecordQClass::In);

    let questions = MessageQuestions::new(vec![question1, question2.clone()]);
    let mut label_map = LabelMap::new();
    let offset = 0;

    let expected_bytes: Vec<u8> = [
        DomainLabel::try_from("store").unwrap().to_bytes(),
        DomainLabel::try_from("steampowered").unwrap().to_bytes(),
        // Offset at this point should be 19
        DomainLabel::try_from("com").unwrap().to_bytes(),
        vec![0],
        Qtype::A.code().to_be_bytes().to_vec(),
        ResourceRecordQClass::In.code().to_be_bytes().to_vec(),
        DomainLabel::try_from("example").unwrap().to_bytes(),
        create_pointer(19).to_be_bytes().to_vec(),
        Qtype::A.code().to_be_bytes().to_vec(),
        ResourceRecordQClass::In.code().to_be_bytes().to_vec(),
    ]
    .into_iter()
    .flatten()
    .collect();

    let result = questions.to_bytes_compressed(offset, &mut label_map);
    assert_eq!(result.compressed_bytes, expected_bytes);
    assert_eq!(result.new_offset, 42);

    let questions = MessageQuestions::new(vec![question2, question3, question4]);
    let offset = 10;
    label_map.clear();
    let expected_bytes: Vec<u8> = [
        DomainLabel::try_from("example").unwrap().to_bytes(),
        // Offset at this point should be 8
        DomainLabel::try_from("com").unwrap().to_bytes(),
        vec![0],
        Qtype::A.code().to_be_bytes().to_vec(),
        ResourceRecordQClass::In.code().to_be_bytes().to_vec(),
        DomainLabel::try_from("twister").unwrap().to_bytes(),
        create_pointer(offset).to_be_bytes().to_vec(),
        Qtype::A.code().to_be_bytes().to_vec(),
        ResourceRecordQClass::In.code().to_be_bytes().to_vec(),
        DomainLabel::try_from("twister").unwrap().to_bytes(),
        DomainLabel::try_from("hello").unwrap().to_bytes(),
        create_pointer(offset + 8).to_be_bytes().to_vec(),
        Qtype::A.code().to_be_bytes().to_vec(),
        ResourceRecordQClass::In.code().to_be_bytes().to_vec(),
    ]
    .into_iter()
    .flatten()
    .collect();

    let result = questions.to_bytes_compressed(offset, &mut label_map);
    assert_eq!(result.compressed_bytes, expected_bytes);
    assert_eq!(result.new_offset, 61);
}

#[test]
fn test_question_parse() {
    let qname = DomainName::try_from("example.net").unwrap();
    let qtype = Qtype::A;
    let qclass = ResourceRecordQClass::In;

    let question = Question::new(qname, qtype, qclass);
    let question_bytes = question.to_bytes();

    let (parsed_question, consumed) = Question::parse(&question_bytes).unwrap();
    assert_eq!(parsed_question, question);
    assert_eq!(consumed, question_bytes.len());
}

#[test]
fn test_question_parse_compressed() {
    let qname = DomainName::try_from("us-east1.foo.bar.xyz").unwrap();
    let qtype = Qtype::A;
    let qclass = ResourceRecordQClass::In;

    let question = Question::new(qname, qtype, qclass);
    let question_bytes = question.to_bytes();

    let (parsed_question, new_offset) =
        Question::parse_compressed(&question_bytes, 0).unwrap();
    assert_eq!(parsed_question.qname(), question.qname());
    assert_eq!(parsed_question.qtype(), question.qtype());
    assert_eq!(parsed_question.qclass(), question.qclass());

    // Final offset should be the same as the length of the question bytes since
    // they contain only the question itself
    let question_bytes_len = question_bytes.len();
    assert_eq!(question_bytes_len as u16, new_offset);

    // Further test with the question bytes wrapped around additional bytes
    let padded_bytes_front = [0u8, 20u8, 43u8, 16u8, 17u8];
    let padded_bytes_back = [191u8, 23u8, 77u8, 63u8];
    let padded_bytes: Vec<u8> = [
        padded_bytes_front.as_slice(),
        &question_bytes,
        padded_bytes_back.as_slice(),
    ]
    .into_iter()
    .flatten()
    .cloned()
    .collect();

    let (parsed_question, new_offset) = Question::parse_compressed(&padded_bytes, 5).unwrap();
    assert_eq!(parsed_question.qname(), question.qname());
    assert_eq!(parsed_question.qtype(), question.qtype());
    assert_eq!(parsed_question.qclass(), question.qclass());
    assert_eq!(
        new_offset,
        (padded_bytes_front.len() + question_bytes_len) as u16
    );
    assert_eq!(&padded_bytes[(new_offset as usize)..], padded_bytes_back);
}

#[test]
fn test_message_questions_parse() {
    // Create the bytes of multiple questions and see if all of them are
    // deserialized correctly
    let q1 = create_question("example.com");
    let q2 = create_question("me.example.com");
    let q3 = create_question("fr.example.com");
    let q4 = create_question("ant.example.com");

    let bytes = [q1.to_bytes(), q2.to_bytes(), q3.to_bytes(), q4.to_bytes()]
        .into_iter()
        .flatten()
        .collect::<Vec<u8>>();

    let num_questions = 4;
    let (message_questions, consumed) =
        MessageQuestions::parse(&bytes, num_questions).unwrap();

    let questions = message_questions.questions();
    assert_eq!(questions.len(), num_questions as usize);

    assert_eq!(questions[0].qname(), q1.qname());
    assert_eq!(questions[0].qtype(), q1.qtype());
    assert_eq!(questions[0].qclass(), q1.qclass());

    assert_eq!(questions[1].qname(), q2.qname());
    assert_eq!(questions[1].qtype(), q2.qtype());
    assert_eq!(questions[1].qclass(), q2.qclass());

    assert_eq!(questions[2].qname(), q3.qname());
    assert_eq!(questions[2].qtype(), q3.qtype());
    assert_eq!(questions[2].qclass(), q3.qclass());

    assert_eq!(questions[3].qname(), q4.qname());
    assert_eq!(questions[3].qtype(), q4.qtype());
    assert_eq!(questions[3].qclass(), q4.qclass());

    assert_eq!(consumed, bytes.len());
}

#[test]
fn test_message_questions_parse_compressed() {
    let q1 = create_question("example.com");
    let q2 = create_question("me.example.com");
    let q3 = create_question("fr.example.com");
    let q4 = create_question("ant.example.com");

    let mut label_map = LabelMap::new();
    let mut bytes = Vec::new();
    let mut offset = 0;

    // Serialize all questions into compressed bytes
    let q1_serialize_outcome = q1.to_bytes_compressed(offset, &mut label_map);
    bytes.push(q1_serialize_outcome.compressed_bytes);
    offset = q1_serialize_outcome.new_offset;
    let q2_serialize_outcome = q2.to_bytes_compressed(offset, &mut label_map);
    bytes.push(q2_serialize_outcome.compressed_bytes);
    offset = q2_serialize_outcome.new_offset;
    let q3_serialize_outcome = q3.to_bytes_compressed(offset, &mut label_map);
    bytes.push(q3_serialize_outcome.compressed_bytes);
    offset = q3_serialize_outcome.new_offset;
    let q4_serialize_outcome = q4.to_bytes_compressed(offset, &mut label_map);
    bytes.push(q4_serialize_outcome.compressed_bytes);

    let bytes = bytes.into_iter().flatten().collect::<Vec<u8>>();

    let num_questions = 4;
    let (message_questions, new_offset) =
        MessageQuestions::parse_compressed(&bytes, 0, num_questions).unwrap();

    let questions = message_questions.questions();
    assert_eq!(questions.len(), num_questions as usize);

    assert_eq!(questions[0].qname(), q1.qname());
    assert_eq!(questions[0].qtype(), q1.qtype());
    assert_eq!(questions[0].qclass(), q1.qclass());

    assert_eq!(questions[1].qname(), q2.qname());
    assert_eq!(questions[1].qtype(), q2.qtype());
    assert_eq!(questions[1].qclass(), q2.qclass());

    assert_eq!(questions[2].qname(), q3.qname());
    assert_eq!(questions[2].qtype(), q3.qtype());
    assert_eq!(questions[2].qclass(), q3.qclass());

    assert_eq!(questions[3].qname(), q4.qname());
    assert_eq!(questions[3].qtype(), q4.qtype());
    assert_eq!(questions[3].qclass(), q4.qclass());

    assert_eq!(new_offset, bytes.len() as u16);
}

#[test]
fn test_compression_roundtrip_shared_suffixes() {
    // a whole section of names sharing suffixes, compressed from offset 0,
    // parses back (fresh pass) to equal names, and the final offset equals
    // the serialized byte length
    let names = [
        "store.steampowered.com",
        "example.com",
        "twister.example.com",
        "TWISTER.Example.COM",
        "com",
    ];
    let questions: Vec<Question> = names.iter().map(|n| create_question(n)).collect();
    let section = MessageQuestions::new(questions.clone());

    let mut label_map = LabelMap::new();
    let outcome = section.to_bytes_compressed(0, &mut label_map);
    let wire = outcome.compressed_bytes;
    assert_eq!(outcome.new_offset as usize, wire.len());

    let (parsed, end) =
        MessageQuestions::parse_compressed(&wire, 0, names.len() as u16).unwrap();
    assert_eq!(end as usize, wire.len());
    let parsed_questions = parsed.questions();
    for (i, q) in questions.iter().enumerate() {
        assert_eq!(parsed_questions[i].qname(), q.qname());
        assert_eq!(parsed_questions[i].qtype(), q.qtype());
        assert_eq!(parsed_questions[i].qclass(), q.qclass());
    }
}
