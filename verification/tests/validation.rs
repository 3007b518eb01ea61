use medici_data_sync::{
    CourseData, RawCourseData, RawQuestionData, RawQuestionOptionData, ValidationError,
};

fn raw_option(id: u8, text: &str, correct: bool) -> RawQuestionOptionData {
    RawQuestionOptionData {
        id: Some(vec![id; 16]),
        text: text.as_bytes().to_vec(),
        correct: if correct { Some(true) } else { None },
        explanation: None,
    }
}

fn raw_question(id: u8, text: &str, options: Vec<RawQuestionOptionData>) -> RawQuestionData {
    RawQuestionData {
        id: Some(vec![id; 16]),
        text: text.as_bytes().to_vec(),
        options,
        evaluation: b"midterm".to_vec(),
        source: b"book".to_vec(),
        asked_at: None,
        image: None,
    }
}

fn raw_course(questions: Vec<RawQuestionData>) -> RawCourseData {
    RawCourseData {
        name: b"Course One".to_vec(),
        short_name: b"C1".to_vec(),
        aliases: vec![],
        year: None,
        questions,
        evaluations: vec![],
    }
}

#[test]
fn one_option_fails_validation() {
    let raw = raw_course(vec![raw_question(1, "q", vec![raw_option(2, "a", true)])]);
    let r = CourseData::prepare(b"c1".to_vec(), raw);
    match r {
        Err(ValidationError::OptionCount { question_id, count }) => {
            assert_eq!(question_id, vec![1u8; 16]);
            assert_eq!(count, 1);
        },
        _ => panic!("expected an option count error"),
    }
}

#[test]
fn six_options_fail_validation() {
    let options = vec![
        raw_option(2, "a", true),
        raw_option(3, "b", false),
        raw_option(4, "c", false),
        raw_option(5, "d", false),
        raw_option(6, "e", false),
        raw_option(7, "f", false),
    ];
    let raw = raw_course(vec![raw_question(1, "q", options)]);
    let r = CourseData::prepare(b"c1".to_vec(), raw);
    match r {
        Err(ValidationError::OptionCount { question_id, count }) => {
            assert_eq!(question_id, vec![1u8; 16]);
            assert_eq!(count, 6);
        },
        _ => panic!("expected an option count error"),
    }
}

#[test]
fn zero_correct_options_fail_validation() {
    let raw = raw_course(vec![raw_question(
        1,
        "q",
        vec![raw_option(2, "a", false), raw_option(3, "b", false)],
    )]);
    let r = CourseData::prepare(b"c1".to_vec(), raw);
    match r {
        Err(ValidationError::CorrectOptionCount { question_id, count }) => {
            assert_eq!(question_id, vec![1u8; 16]);
            assert_eq!(count, 0);
        },
        _ => panic!("expected a correct option count error"),
    }
}

#[test]
fn two_correct_options_fail_validation() {
    let raw = raw_course(vec![raw_question(
        1,
        "q",
        vec![raw_option(2, "a", true), raw_option(3, "b", true)],
    )]);
    let r = CourseData::prepare(b"c1".to_vec(), raw);
    match r {
        Err(ValidationError::CorrectOptionCount { question_id, count }) => {
            assert_eq!(question_id, vec![1u8; 16]);
            assert_eq!(count, 2);
        },
        _ => panic!("expected a correct option count error"),
    }
}

#[test]
fn one_correct_among_two_to_five_passes() {
    for n in 2..=5usize {
        let mut options = vec![raw_option(2, "a", true)];
        for k in 0..(n - 1) {
            options.push(raw_option(10 + k as u8, &format!("b{k}"), false));
        }
        let raw = raw_course(vec![raw_question(1, "q", options)]);
        let r = CourseData::prepare(b"c1".to_vec(), raw);
        assert!(r.is_ok());
    }
}

#[test]
fn first_invalid_question_reported() {
    let raw = raw_course(vec![
        raw_question(1, "fine", vec![raw_option(2, "a", true), raw_option(3, "b", false)]),
        raw_question(4, "bad", vec![raw_option(5, "a", true)]),
        raw_question(6, "also bad", vec![]),
    ]);
    let r = CourseData::prepare(b"c1".to_vec(), raw);
    match r {
        Err(ValidationError::OptionCount { question_id, count }) => {
            assert_eq!(question_id, vec![4u8; 16]);
            assert_eq!(count, 1);
        },
        _ => panic!("expected the second question's error"),
    }
}

#[test]
fn generated_ids_are_sixteen_bytes() {
    let mut q = raw_question(
        1,
        "q",
        vec![raw_option(2, "a", true), raw_option(3, "b", false)],
    );
    q.id = None;
    q.options[0].id = None;
    let raw = raw_course(vec![q]);
    let c = CourseData::prepare(b"c1".to_vec(), raw).unwrap();
    assert_eq!(c.questions[0].id.len(), 16);
    assert_eq!(c.questions[0].question_options.len(), 2);
    for o in &c.questions[0].question_options {
        assert_eq!(o.id.len(), 16);
    }
}
