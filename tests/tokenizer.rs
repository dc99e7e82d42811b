use kvdb::{SrcReader, Tokenizer, CHUNK_SIZE};

#[test]
fn test_simple_text() {
    let expected_tokens = ["#", "Contact", "Hommes", "EMAIL"];

    let tokens = Tokenizer::tokenize(b"# Contact Hommes EMAIL".to_vec());

    let mut token: Vec<u8> = Vec::new();
    let mut idx: usize = 0;

    for &t in tokens.iter() {
        if t != b' ' {
            token.push(t);

            continue;
        }

        let tok = String::from_utf8(token.clone()).unwrap();
        assert_eq!(&tok, expected_tokens[idx]);

        token.clear();
        idx += 1;
    }
}

#[test]
fn test_chunk_size_input() {
    let data = b"Contact OH Homme";

    // make sure data is of chunk len
    assert!(
        data.len() == CHUNK_SIZE,
        "input data must be of size CHUNK_SIZE, (INVALID INPUT)",
    );

    let file_size = data.len();

    let mut sr = SrcReader::new(data.to_vec());
    let buf = sr.get_chunk().expect("expected one chunk for tiny file");

    assert_eq!(buf.len(), CHUNK_SIZE);
    assert_eq!(&buf[..file_size], data);
    assert!(buf[file_size..].iter().all(|&b| b == 0));
    assert!(sr.get_chunk().is_none());
}

#[test]
fn delimiters_become_spaces_and_last_chunk_is_padded() {
    let tokens = Tokenizer::tokenize(b"a-b_c\td\ne\rf, 0123456789".to_vec());
    let mut expected = b"a b c d e f, 0123456789".to_vec();
    expected.resize(32, 0);
    assert_eq!(tokens, expected);
}

#[test]
fn empty_source_has_no_chunks() {
    let mut sr = SrcReader::new(Vec::new());
    assert!(sr.get_chunk().is_none());
    assert!(Tokenizer::tokenize(Vec::new()).is_empty());
}

#[test]
fn chunks_cover_the_source() {
    let data: Vec<u8> = (0..40u8).collect();
    let mut sr = SrcReader::new(data.clone());
    let mut seen = Vec::new();
    while let Some(buf) = sr.get_chunk() {
        seen.extend_from_slice(&buf);
    }
    assert_eq!(seen.len(), 48);
    assert_eq!(&seen[..40], &data[..]);
    assert!(seen[40..].iter().all(|&b| b == 0));
}

#[test]
fn replace_delims_in_one_chunk() {
    let input = *b"x-y_z\t\n\rAB--__CD";
    assert_eq!(&Tokenizer::replace_delims_16_simple(&input), b"x y z   AB    CD");
}
