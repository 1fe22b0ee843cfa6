use bergen::brnfck::{ByteSink, ByteSource, ReadOutcome, WriteOutcome};

#[test]
fn read_from_buffer() {
    let mut input: &[u8] = "Hello, World!".as_bytes();
    let mut buffer: [u8; 1];

    for character in vec!["H", "e", "l", "l", "o", ",", " ", "W", "o", "r", "l", "d", "!"] {
        buffer = [0];
        let result = input.read_byte();
        assert!(matches!(result, ReadOutcome::Byte(_)));
        if let ReadOutcome::Byte(byte) = result {
            buffer[0] = byte;
        }
        assert_eq!(result, ReadOutcome::Byte(character.as_bytes()[0]));
        assert_eq!(buffer, character.as_bytes());
    }

    if let ReadOutcome::End = input.read_byte() {
        assert_eq!(input.len(), 0);
    } else {
        assert!(false);
    }
}

#[test]
fn write_to_vec() {
    let bytes: [u8; 3] = [97, 98, 99];
    let mut output: Vec<u8> = vec![];
    {
        let output_ref = &mut output;

        for byte in bytes.iter() {
            let result = output_ref.write_byte(*byte);
            assert!(matches!(result, WriteOutcome::Written));
            assert_eq!(result, WriteOutcome::Written);
        }
    }
    assert_eq!(output, vec!(97, 98, 99));
}
