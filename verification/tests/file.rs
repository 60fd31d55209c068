use actionkv::file::{close, open, File};

#[test]
fn new_file_is_empty_and_named() {
    let f = File::new("2.txt");
    assert_eq!(f.len(), 0);
    assert_eq!(f.name(), "2.txt".to_string());
}

#[test]
fn reading_a_closed_file_fails_and_writes_nothing() {
    let data = vec![114, 117, 115, 116, 33];
    let f = File::new_with_data("2.txt", &data);
    let mut buffer: Vec<u8> = vec![];
    let r = f.read(&mut buffer);
    assert_eq!(r, Err("File must be open for reading".to_string()));
    assert!(buffer.is_empty());
}

#[test]
fn open_read_close_round_trip() {
    let data = vec![114, 117, 115, 116, 33];
    let f = File::new_with_data("2.txt", &data);
    match open(f) {
        Ok(f) => {
            let mut buffer: Vec<u8> = vec![];
            assert_eq!(f.read(&mut buffer), Ok(5));
            assert_eq!(buffer, data);
            // Reading appends; a second read doubles the buffer.
            assert_eq!(f.read(&mut buffer), Ok(5));
            assert_eq!(buffer.len(), 10);
            match close(f) {
                Ok(f) => {
                    let mut after: Vec<u8> = vec![];
                    assert!(f.read(&mut after).is_err());
                }
                Err(m) => assert_eq!(m, "Interrput by signal".to_string()),
            }
        }
        Err(m) => assert_eq!(m, "permission denied".to_string()),
    }
}
