use oldrar::codec::{unpack15_decode, unpack15_encode, Unpack15};

#[test]
fn decode_member_from_reader_accepts_incremental_input() {
    struct TinyReader<'a> {
        input: &'a [u8],
    }

    impl std::io::Read for TinyReader<'_> {
        fn read(&mut self, out: &mut [u8]) -> std::io::Result<usize> {
            if self.input.is_empty() {
                return Ok(0);
            }
            let len = self.input.len().min(out.len()).min(2);
            out[..len].copy_from_slice(&self.input[..len]);
            self.input = &self.input[len..];
            Ok(len)
        }
    }

    let expected = b"RAR 1.4 incremental input fixture\n".repeat(32);
    let packed = unpack15_encode(&expected).unwrap();
    assert_eq!(unpack15_decode(&packed, expected.len()).unwrap(), expected);

    let mut reader = TinyReader { input: &packed };
    let mut decoder = Unpack15::new();
    let mut output = Vec::new();
    let mut buffer = [0u8; 64 * 1024];
    decoder
        .decode_member_from_reader(
            || match std::io::Read::read(&mut reader, &mut buffer) {
                Ok(read) => Some(buffer[..read].to_vec()),
                Err(_) => None,
            },
            expected.len(),
            false,
            &mut output,
        )
        .unwrap();

    assert_eq!(output, expected);
}
