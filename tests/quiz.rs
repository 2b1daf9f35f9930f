use quizzer::{
    dump, load, load_prefix, DecodeError, InvalidNumberError, Quiz, QuizError, QuizItem, QuizItemType,
};

fn sample_raw() -> Vec<(u8, &'static str, &'static str)> {
    vec![
        (1u8, "Do you love her?", "yes"),
        (1u8, "Amoogns cronut", "no"),
        (1u8, "Weeeeeeeeeeee", "yes"),
        (1u8, "Fourth question?", "yes"),
        (1u8, "Is the next question of the same type?", "no"),
        (2u8, "Who is the bestest doggo in the world?", "Rosie"),
        (2u8, "Who is the smelliest doggo in the world?", "Tasha"),
        (3u8, "What is life?", "Damn bro idk"),
        (
            3u8,
            "What is this hit game called Amongus?",
            "AAAAAAAAAAAAAAAAAAAAAAAAAAAAAAAAAAAAAAAAA",
        ),
    ]
}

fn item(t: QuizItemType, q: &str, a: &str) -> QuizItem {
    QuizItem::new(t, q.to_string(), a.to_string())
}

#[test]
fn serializes() {
    let quiz = Quiz::from_raw(sample_raw()).unwrap();
    let bytes = dump(&quiz);
    assert!(!bytes.is_empty());
    assert_eq!(bytes[0], 9);
}

#[test]
fn deserializes() {
    let quiz = Quiz::from_raw(sample_raw()).unwrap();
    let bytes = dump(&Quiz::from_raw(sample_raw()).unwrap());
    let res = load(&bytes);
    assert!(res.is_ok());
    assert_eq!(quiz, res.unwrap());
}

#[test]
fn concrete_scenario_from_raw_tuples() {
    let raw = vec![
        (1u8, "Do you love her?", "yes"),
        (2u8, "Who is the bestest doggo?", "Rosie"),
        (3u8, "What is life?", "Damn bro idk"),
    ];
    let quiz = Quiz::from_raw(raw).unwrap();
    assert_eq!(quiz.get_length(), 3);
    let first = quiz.get_quiz(0).unwrap();
    assert_eq!(first.get_type(), QuizItemType::TrueOrFalse);
    assert_eq!(first.get_question(), "Do you love her?");
    assert_eq!(first.get_answer(), "yes");
    assert_eq!(quiz.get_quiz(1).unwrap().get_type(), QuizItemType::MultipleChoice);
    assert_eq!(quiz.get_quiz(2).unwrap().get_type(), QuizItemType::FillInTheBlank);
    let back = load(&dump(&quiz)).unwrap();
    assert_eq!(back, quiz);
}

#[test]
fn invalid_code_fails_construction() {
    let res = Quiz::from_raw(vec![(9u8, "x", "y")]);
    assert_eq!(res, Err(QuizError::InvalidTypeCode(9)));
}

#[test]
fn first_invalid_code_is_reported() {
    let res = Quiz::from_raw(vec![(1u8, "a", "b"), (0u8, "c", "d"), (7u8, "e", "f")]);
    assert_eq!(res, Err(QuizError::InvalidTypeCode(0)));
}

#[test]
fn truncated_after_length_field_fails() {
    assert_eq!(load(&[3u8]), Err(DecodeError::Truncated(1)));
    assert_eq!(load(&[]), Err(DecodeError::Truncated(0)));
}

#[test]
fn truncated_inside_items_fails() {
    let quiz = Quiz::from_raw(vec![(1u8, "q", "a")]).unwrap();
    let bytes = dump(&quiz);
    // length, count, code, question count (8) + 1 byte, answer count (8) + 1 byte
    assert_eq!(bytes.len(), 28);
    assert_eq!(load(&bytes[..9]), Err(DecodeError::Truncated(9)));
    assert_eq!(load(&bytes[..12]), Err(DecodeError::Truncated(10)));
    assert_eq!(load(&bytes[..18]), Err(DecodeError::Truncated(18)));
    assert_eq!(load(&bytes[..27]), Err(DecodeError::Truncated(27)));
}

#[test]
fn type_codes_map_exactly() {
    assert_eq!(QuizItemType::from_code(1), Ok(QuizItemType::TrueOrFalse));
    assert_eq!(QuizItemType::from_code(2), Ok(QuizItemType::MultipleChoice));
    assert_eq!(QuizItemType::from_code(3), Ok(QuizItemType::FillInTheBlank));
    for code in 0u8..=255 {
        let r = QuizItemType::from_code(code);
        if (1..=3).contains(&code) {
            assert_eq!(r.unwrap().code(), code);
        } else {
            assert_eq!(r, Err(InvalidNumberError(code)));
        }
    }
}

#[test]
fn item_from_raw_code() {
    let it = QuizItem::from_raw(2, "q".to_string(), "a".to_string()).unwrap();
    assert_eq!(it.get_type(), QuizItemType::MultipleChoice);
    assert_eq!(
        QuizItem::from_raw(4, "q".to_string(), "a".to_string()),
        Err(InvalidNumberError(4))
    );
}

#[test]
fn length_tracks_appends() {
    let mut quiz = Quiz::new();
    assert_eq!(quiz.get_length(), 0);
    for i in 0..255usize {
        assert_eq!(quiz.add_quiz(item(QuizItemType::TrueOrFalse, "q", "a")), Ok(()));
        assert_eq!(quiz.get_length() as usize, i + 1);
    }
    assert_eq!(
        quiz.add_quiz(item(QuizItemType::TrueOrFalse, "extra", "a")),
        Err(QuizError::TooManyItems)
    );
    assert_eq!(quiz.get_length(), 255);
    assert!(quiz.get_quiz(254).is_some());
    assert!(quiz.get_quiz(255).is_none());
    let back = load(&dump(&quiz)).unwrap();
    assert_eq!(back.get_length(), 255);
    assert_eq!(back, quiz);
}

#[test]
fn too_many_raw_items_fail() {
    let raw: Vec<(u8, &str, &str)> = (0..256).map(|_| (1u8, "q", "a")).collect();
    assert_eq!(Quiz::from_raw(raw), Err(QuizError::TooManyItems));
    let raw: Vec<(u8, &str, &str)> = (0..255).map(|_| (1u8, "q", "a")).collect();
    assert_eq!(Quiz::from_raw(raw).unwrap().get_length(), 255);
}

#[test]
fn from_items_keeps_order() {
    let items = vec![
        item(QuizItemType::FillInTheBlank, "first", "1"),
        item(QuizItemType::MultipleChoice, "second", "2"),
    ];
    let quiz = Quiz::from_items(items).unwrap();
    assert_eq!(quiz.get_length(), 2);
    assert_eq!(quiz.get_quiz(0).unwrap().get_question(), "first");
    assert_eq!(quiz.get_quiz(1).unwrap().get_question(), "second");
    assert!(quiz.get_quiz(2).is_none());
    let many: Vec<QuizItem> = (0..256).map(|_| item(QuizItemType::TrueOrFalse, "q", "a")).collect();
    assert_eq!(Quiz::from_items(many), Err(QuizError::TooManyItems));
}

#[test]
fn lookup_past_end_is_absent() {
    let quiz = Quiz::new();
    assert!(quiz.get_quiz(0).is_none());
    let quiz = Quiz::from_raw(sample_raw()).unwrap();
    for n in 0..9usize {
        assert_eq!(quiz.get_quiz(n).unwrap().get_question(), sample_raw()[n].1);
    }
    for n in 9..40usize {
        assert!(quiz.get_quiz(n).is_none());
    }
    assert!(quiz.get_quiz(usize::MAX).is_none());
}

#[test]
fn setters_replace_text_only() {
    let mut it = item(QuizItemType::TrueOrFalse, "old q", "old a");
    it.set_question("new q".to_string());
    assert_eq!(it.get_question(), "new q");
    assert_eq!(it.get_answer(), "old a");
    it.set_answer("new a".to_string());
    assert_eq!(it.get_answer(), "new a");
    assert_eq!(it.get_type(), QuizItemType::TrueOrFalse);
}

#[test]
fn exact_bytes_of_one_item() {
    let quiz = Quiz::from_raw(vec![(3u8, "hé", "")]).unwrap();
    let bytes = dump(&quiz);
    let expected: Vec<u8> = vec![
        1, 1, 0, 0, 0, 0, 0, 0, 0, // length, item count
        3, // fill in the blank
        3, 0, 0, 0, 0, 0, 0, 0, b'h', 0xc3, 0xa9, // question
        0, 0, 0, 0, 0, 0, 0, 0, // empty answer
    ];
    assert_eq!(bytes, expected);
    let back = load(&bytes).unwrap();
    assert_eq!(back.get_quiz(0).unwrap().get_question(), "hé");
    assert_eq!(back.get_quiz(0).unwrap().get_answer(), "");
}

#[test]
fn empty_quiz_round_trips() {
    let quiz = Quiz::new();
    let bytes = dump(&quiz);
    assert_eq!(bytes, vec![0u8; 9]);
    assert_eq!(load(&bytes).unwrap(), quiz);
}

#[test]
fn unicode_text_round_trips() {
    let quiz = Quiz::from_raw(vec![(2u8, "Ça va? 🐕", "日本語")]).unwrap();
    let back = load(&dump(&quiz)).unwrap();
    assert_eq!(back.get_quiz(0).unwrap().get_question(), "Ça va? 🐕");
    assert_eq!(back.get_quiz(0).unwrap().get_answer(), "日本語");
}

#[test]
fn unknown_variant_fails() {
    let mut bytes = dump(&Quiz::from_raw(vec![(1u8, "q", "a")]).unwrap());
    bytes[9] = 4;
    assert_eq!(load(&bytes), Err(DecodeError::UnknownVariant(4)));
    bytes[9] = 0;
    assert_eq!(load(&bytes), Err(DecodeError::UnknownVariant(0)));
}

#[test]
fn invalid_text_fails() {
    let mut bytes = dump(&Quiz::from_raw(vec![(1u8, "q", "a")]).unwrap());
    bytes[18] = 0xff;
    assert_eq!(load(&bytes), Err(DecodeError::InvalidText(18)));
}

#[test]
fn length_mismatch_fails() {
    let mut bytes = dump(&Quiz::from_raw(vec![(1u8, "q", "a")]).unwrap());
    bytes[0] = 2;
    assert_eq!(load(&bytes), Err(DecodeError::LengthMismatch(2, 1)));
}

#[test]
fn trailing_bytes_fail() {
    let mut bytes = dump(&Quiz::from_raw(vec![(1u8, "q", "a")]).unwrap());
    bytes.push(0);
    assert_eq!(load(&bytes), Err(DecodeError::TrailingBytes(28)));
}

#[test]
fn huge_text_count_is_truncation() {
    let mut bytes = dump(&Quiz::from_raw(vec![(1u8, "q", "a")]).unwrap());
    for k in 10..18 {
        bytes[k] = 0xff;
    }
    assert_eq!(load(&bytes), Err(DecodeError::Truncated(18)));
}

#[test]
fn invalid_code_wins_over_too_many_items() {
    let mut raw: Vec<(u8, &str, &str)> = (0..300).map(|_| (1u8, "q", "a")).collect();
    raw[280] = (5u8, "bad", "code");
    raw[290] = (0u8, "bad", "code");
    assert_eq!(Quiz::from_raw(raw), Err(QuizError::InvalidTypeCode(5)));
}

#[test]
fn load_prefix_ignores_trailing_bytes() {
    let quiz = Quiz::from_raw(vec![(2u8, "q", "a")]).unwrap();
    let mut bytes = dump(&quiz);
    let end = bytes.len();
    bytes.extend_from_slice(&[9, 9, 9]);
    let (back, at) = load_prefix(&bytes).unwrap();
    assert_eq!(back, quiz);
    assert_eq!(at, end);
    assert_eq!(load(&bytes), Err(DecodeError::TrailingBytes(end)));
    assert_eq!(load_prefix(&bytes[..end - 1]), Err(DecodeError::Truncated(end - 1)));
}
