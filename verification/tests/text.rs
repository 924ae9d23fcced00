use rejoin_slice::Span;
use rejoin_slice::StrExt;

#[test]
fn test_str_rejoin() {
    let slice = &"abcdefg"[..];

    assert_eq!(slice.rejoin(Span::new(0, 3), Span::new(3, 4)), slice);
    assert_eq!(slice.rejoin(Span::new(0, 4), Span::new(4, 3)), slice);
    assert_eq!(slice.rejoin(Span::new(0, 0), Span::new(0, 7)), slice);
    assert_eq!(slice.rejoin(Span::new(0, 1), Span::new(1, 6)), slice);
    assert_eq!(slice.rejoin(Span::new(0, 6), Span::new(6, 1)), slice);
    assert_eq!(slice.rejoin(Span::new(0, 7), Span::new(7, 0)), slice);
}

#[test]
#[should_panic]
fn test_str_rejoin_nogaps() {
    let slice = &"abcdefg"[..];

    // Don't allow gaps between slices
    slice.rejoin(Span::new(0, 3), Span::new(4, 3));
}

#[test]
#[should_panic]
fn test_str_rejoin_leftright() {
    let slice = &"abcdefg"[..];

    // Don't allow joining in wrong order
    slice.rejoin(Span::new(3, 4), Span::new(0, 3));
}

#[test]
fn test_str_try_rejoin() {
    let slice = &"abcdefg"[..];

    assert_eq!(slice.try_rejoin(Span::new(0, 3), Span::new(3, 4)), Some(slice));
    assert_eq!(slice.try_rejoin(Span::new(0, 0), Span::new(0, 7)), Some(slice));
    assert_eq!(slice.try_rejoin(Span::new(0, 1), Span::new(1, 6)), Some(slice));
    assert_eq!(slice.try_rejoin(Span::new(0, 6), Span::new(6, 1)), Some(slice));
    assert_eq!(slice.try_rejoin(Span::new(0, 7), Span::new(7, 0)), Some(slice));

    assert_eq!(slice.try_rejoin(Span::new(0, 3), Span::new(4, 3)), None);
    assert_eq!(slice.try_rejoin(Span::new(3, 4), Span::new(3, 4)), None);
}

#[test]
fn text_of_many_bytes_joins_at_every_boundary() {
    let texts = ["héllo wörld", "日本語のテキスト", "a€b𝄞c", "ß", "", "plain"];
    for text in texts {
        for cut in 0..=text.len() {
            if !text.is_char_boundary(cut) {
                continue;
            }
            let head = Span::new(0, cut);
            let tail = Span::new(cut, text.len() - cut);
            let whole = text.try_rejoin(head, tail).unwrap();
            assert_eq!(whole, text);
            assert!(std::ptr::eq(whole, text));
            assert_eq!(text.rejoin(head, tail), text);
        }
    }
}

#[test]
fn inner_texts_join_between_characters() {
    let text = "añb€c𝄞d";
    // a: 1 byte, ñ: 2, b: 1, €: 3, c: 1, 𝄞: 4, d: 1
    assert_eq!(text.len(), 13);
    let joined = text.rejoin(Span::new(1, 3), Span::new(4, 4));
    assert_eq!(joined, "ñb€c");
    assert_eq!(joined.as_bytes(), &text.as_bytes()[1..8]);
    assert_eq!(text.try_rejoin(Span::new(1, 2), Span::new(3, 1)), Some("ñb"));
    assert_eq!(text.try_rejoin(Span::new(8, 4), Span::new(12, 1)), Some("𝄞d"));
    assert_eq!(text.try_rejoin(Span::new(8, 4), Span::new(12, 0)), Some("𝄞"));
}

#[test]
fn texts_apart_or_reversed_do_not_join() {
    let text = "añb€c𝄞d";
    assert_eq!(text.try_rejoin(Span::new(0, 1), Span::new(3, 1)), None);
    assert_eq!(text.try_rejoin(Span::new(4, 4), Span::new(1, 3)), None);
    assert_eq!(text.try_rejoin(Span::new(1, 3), Span::new(3, 5)), None);
    assert_eq!(text.try_rejoin(Span::new(0, 1), Span::new(3, 1)), None);
    assert_eq!(text, "añb€c𝄞d");
}
