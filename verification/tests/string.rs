use lidl::{Error, MessageBuilder};

#[test]
fn hello_rust_scenario() {
    let mut buf = [0u8; 128];
    {
        let mut mb = MessageBuilder::new(&mut buf);
        {
            let view = lidl::String::new(&mut mb, "hello rust").unwrap();
            assert_eq!(view.size(), 10);
            assert_eq!(view.get(), Ok("hello rust"));
            assert_eq!(view.as_bytes().len(), 12);
        }
        assert_eq!(mb.position(), 12);
        {
            let view = lidl::String::new(&mut mb, "x").unwrap();
            assert_eq!(view.size(), 1);
            assert_eq!(view.get(), Ok("x"));
            assert_eq!(view.as_bytes(), &[1, 0, b'x']);
        }
        assert_eq!(mb.position(), 15);
    }
    assert_eq!(&buf[0..2], &[10, 0]);
    assert_eq!(&buf[2..12], b"hello rust");
    assert_eq!(&buf[12..14], &[1, 0]);
    assert_eq!(buf[14], b'x');
    assert!(buf[15..].iter().all(|b| *b == 0));
}

#[test]
fn round_trip_through_bytes() {
    for text in ["", "a", "hello rust", "gr\u{fc}\u{df}e", "\u{65e5}\u{672c}\u{8a9e}", "\u{1f980}"] {
        let mut buf = [0u8; 64];
        let mut mb = MessageBuilder::new(&mut buf);
        let view = lidl::String::new(&mut mb, text).unwrap();
        let again = lidl::String::from_buffer(view.as_bytes()).unwrap();
        assert_eq!(again.get(), Ok(text));
        assert_eq!(again.size() as usize, text.len());
        assert_eq!(again.as_bytes(), view.as_bytes());
    }
}

#[test]
fn round_trip_through_finished_buffer() {
    let mut buf = [0xAAu8; 32];
    let mut mb = MessageBuilder::new(&mut buf);
    mb.allocate(3, 1).unwrap();
    lidl::String::new(&mut mb, "abc").unwrap();
    let out = mb.finish();
    assert_eq!(&out[..9], &[0xAA, 0xAA, 0xAA, 3, 0, b'a', b'b', b'c', 0xAA]);
    let view = lidl::String::from_buffer(&out[3..]).unwrap();
    assert_eq!(view.get(), Ok("abc"));
    assert_eq!(view.as_bytes(), &[3, 0, b'a', b'b', b'c']);
}

#[test]
fn length_field_is_little_endian() {
    let text = "a".repeat(258);
    let mut buf = vec![0u8; 300];
    let mut mb = MessageBuilder::new(&mut buf);
    let view = lidl::String::new(&mut mb, &text).unwrap();
    assert_eq!(view.size(), 258);
    assert_eq!(&view.as_bytes()[..2], &[2, 1]);
    assert_eq!(mb.position(), 260);
}

#[test]
fn empty_text() {
    let mut buf = [9u8; 4];
    let mut mb = MessageBuilder::new(&mut buf);
    let view = lidl::String::new(&mut mb, "").unwrap();
    assert_eq!(view.size(), 0);
    assert_eq!(view.get(), Ok(""));
    assert_eq!(view.as_bytes(), &[0, 0]);
    assert_eq!(mb.position(), 2);
}

#[test]
fn longest_text_fits() {
    let text = "z".repeat(65535);
    let mut buf = vec![0u8; 65537];
    let mut mb = MessageBuilder::new(&mut buf);
    let view = lidl::String::new(&mut mb, &text).unwrap();
    assert_eq!(view.size(), 65535);
    assert_eq!(&view.as_bytes()[..2], &[255, 255]);
    assert_eq!(view.get(), Ok(text.as_str()));
    assert_eq!(mb.remaining(), 0);
}

#[test]
fn too_long_text_is_refused_before_writing() {
    let text = "z".repeat(65536);
    let mut buf = vec![0u8; 70000];
    let mut mb = MessageBuilder::new(&mut buf);
    mb.allocate(1, 1).unwrap();
    assert!(matches!(lidl::String::new(&mut mb, &text), Err(Error::ValueTooLarge)));
    assert_eq!(mb.position(), 1);
    assert!(mb.finish().iter().all(|b| *b == 0));
}

#[test]
fn too_long_text_wins_over_lack_of_space() {
    let text = "z".repeat(65536);
    let mut buf = [0u8; 4];
    let mut mb = MessageBuilder::new(&mut buf);
    assert!(matches!(lidl::String::new(&mut mb, &text), Err(Error::ValueTooLarge)));
}

#[test]
fn construction_without_room_fails() {
    let mut buf = [0u8; 11];
    let mut mb = MessageBuilder::new(&mut buf);
    assert!(matches!(lidl::String::new(&mut mb, "hello rust"), Err(Error::OutOfSpace)));
    assert_eq!(mb.position(), 0);
    assert!(lidl::String::new(&mut mb, "hello rus").is_ok());
    assert_eq!(mb.position(), 11);
    assert!(matches!(lidl::String::new(&mut mb, ""), Err(Error::OutOfSpace)));
    assert_eq!(mb.finish(), &[9, 0, b'h', b'e', b'l', b'l', b'o', b' ', b'r', b'u', b's']);
}

#[test]
fn from_buffer_needs_length_field() {
    assert!(matches!(lidl::String::from_buffer(&[]), Err(Error::Truncated)));
    assert!(matches!(lidl::String::from_buffer(&[0]), Err(Error::Truncated)));
    assert_eq!(lidl::String::from_buffer(&[0, 0]).unwrap().size(), 0);
}

#[test]
fn from_buffer_needs_whole_payload() {
    assert!(matches!(lidl::String::from_buffer(&[3, 0, b'a', b'b']), Err(Error::Truncated)));
    assert!(matches!(lidl::String::from_buffer(&[1, 0]), Err(Error::Truncated)));
    assert!(matches!(lidl::String::from_buffer(&[0, 1, b'a', b'b']), Err(Error::Truncated)));
    assert!(matches!(lidl::String::from_buffer(&[255, 255, 0, 0, 0]), Err(Error::Truncated)));
    let view = lidl::String::from_buffer(&[3, 0, b'a', b'b', b'c']).unwrap();
    assert_eq!(view.get(), Ok("abc"));
}

#[test]
fn every_cut_of_an_encoding_is_truncated() {
    let mut buf = [0u8; 16];
    let mut mb = MessageBuilder::new(&mut buf);
    let view = lidl::String::new(&mut mb, "hello").unwrap();
    let bytes = view.as_bytes();
    for n in 0..bytes.len() {
        assert!(matches!(lidl::String::from_buffer(&bytes[..n]), Err(Error::Truncated)));
    }
    assert!(lidl::String::from_buffer(bytes).is_ok());
}

#[test]
fn from_buffer_ignores_what_follows() {
    let range = [2u8, 0, b'o', b'k', b'!', b'!'];
    let view = lidl::String::from_buffer(&range).unwrap();
    assert_eq!(view.size(), 2);
    assert_eq!(view.as_bytes(), &[2, 0, b'o', b'k']);
    assert_eq!(view.get(), Ok("ok"));
}

#[test]
fn get_refuses_malformed_text() {
    let view = lidl::String::from_buffer(&[1, 0, 0xFF]).unwrap();
    assert_eq!(view.size(), 1);
    assert_eq!(view.get(), Err(Error::InvalidEncoding));
    // a continuation byte is missing
    let view = lidl::String::from_buffer(&[2, 0, b'a', 0xC3]).unwrap();
    assert_eq!(view.get(), Err(Error::InvalidEncoding));
    // an overlong form of '/'
    let view = lidl::String::from_buffer(&[2, 0, 0xC0, 0xAF]).unwrap();
    assert_eq!(view.get(), Err(Error::InvalidEncoding));
    // a surrogate
    let view = lidl::String::from_buffer(&[3, 0, 0xED, 0xA0, 0x80]).unwrap();
    assert_eq!(view.get(), Err(Error::InvalidEncoding));
}

#[test]
fn size_does_not_depend_on_payload() {
    let view = lidl::String::from_buffer(&[4, 0, 0xFF, 0xFE, 0xFD, 0xFC]).unwrap();
    assert_eq!(view.size(), 4);
}

#[test]
fn views_are_copies_of_a_borrow() {
    let range = [1u8, 0, b'q'];
    let view = lidl::String::from_buffer(&range).unwrap();
    let copy = view;
    assert_eq!(view.get(), copy.get());
    assert_eq!(view.as_bytes().as_ptr(), range.as_ptr());
}
