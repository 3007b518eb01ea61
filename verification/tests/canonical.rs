use medici_data_sync::{
    CourseData, RawCourseData, RawCourseEvaluationData, RawQuestionData, RawQuestionOptionData,
    blake3_hex,
};

fn raw_option(id: u8, text: &str, correct: bool) -> RawQuestionOptionData {
    RawQuestionOptionData {
        id: Some(vec![id; 16]),
        text: text.as_bytes().to_vec(),
        correct: if correct { Some(true) } else { None },
        explanation: None,
    }
}

fn raw_question(
    id: u8,
    text: &str,
    evaluation: &str,
    options: Vec<RawQuestionOptionData>,
) -> RawQuestionData {
    RawQuestionData {
        id: Some(vec![id; 16]),
        text: text.as_bytes().to_vec(),
        options,
        evaluation: evaluation.as_bytes().to_vec(),
        source: b"book".to_vec(),
        asked_at: None,
        image: None,
    }
}

fn raw_course(questions: Vec<RawQuestionData>) -> RawCourseData {
    RawCourseData {
        name: b"Course One".to_vec(),
        short_name: b"C1".to_vec(),
        aliases: vec![b"CS1".to_vec()],
        year: Some(2024),
        questions,
        evaluations: vec![RawCourseEvaluationData {
            key: b"midterm".to_vec(),
            name: b"Midterm Exam".to_vec(),
        }],
    }
}

#[test]
fn blake3_digest_of_empty_input() {
    let digest = blake3_hex(b"");
    assert_eq!(
        digest,
        b"af1349b9f5f9a1a6a0404dea36dcc9499bcb25c9adc112b7cc9a93cae41f3262".to_vec()
    );
    let other = blake3_hex(b"a");
    assert_eq!(other.len(), 64);
    assert_ne!(other, digest);
}

#[test]
fn text_is_trimmed_before_hashing() {
    let spaced = raw_course(vec![raw_question(
        1,
        "  What is it?  ",
        "midterm",
        vec![raw_option(2, " A ", true), raw_option(3, "B", false)],
    )]);
    let plain = raw_course(vec![raw_question(
        1,
        "What is it?",
        "midterm",
        vec![raw_option(2, "A", true), raw_option(3, "B", false)],
    )]);
    let c1 = CourseData::prepare(b"c1".to_vec(), spaced).unwrap();
    let c2 = CourseData::prepare(b"c1".to_vec(), plain).unwrap();
    assert_eq!(c1.questions[0].text, b"What is it?".to_vec());
    assert_eq!(c1.questions[0].question_options[0].text, b"A".to_vec());
    assert_eq!(c1.hash, c2.hash);
    assert_eq!(c1.questions[0].hash, c2.questions[0].hash);
}

#[test]
fn duplicate_options_are_collapsed_keeping_first() {
    let raw = raw_course(vec![raw_question(
        1,
        "q",
        "midterm",
        vec![
            raw_option(2, "A", true),
            raw_option(3, "B", false),
            raw_option(4, "B", false),
        ],
    )]);
    let c = CourseData::prepare(b"c1".to_vec(), raw).unwrap();
    let options = &c.questions[0].question_options;
    assert_eq!(options.len(), 2);
    assert_eq!(options[0].id, vec![2u8; 16]);
    assert_eq!(options[1].id, vec![3u8; 16]);
}

#[test]
fn duplicate_questions_are_collapsed_keeping_first() {
    let raw = raw_course(vec![
        raw_question(
            1,
            "q",
            "midterm",
            vec![raw_option(2, "A", true), raw_option(3, "B", false)],
        ),
        raw_question(
            4,
            "q",
            "midterm",
            vec![raw_option(5, "B", false), raw_option(6, "A", true)],
        ),
    ]);
    let c = CourseData::prepare(b"c1".to_vec(), raw).unwrap();
    assert_eq!(c.questions.len(), 1);
    assert_eq!(c.questions[0].id, vec![1u8; 16]);
}

#[test]
fn options_sorted_correct_first_then_text() {
    let raw = raw_course(vec![raw_question(
        1,
        "q",
        "midterm",
        vec![
            raw_option(2, "C", false),
            raw_option(3, "B", false),
            raw_option(4, "A", true),
        ],
    )]);
    let c = CourseData::prepare(b"c1".to_vec(), raw).unwrap();
    let options = &c.questions[0].question_options;
    assert!(options[0].correct);
    assert_eq!(options[0].text, b"A".to_vec());
    assert_eq!(options[1].text, b"B".to_vec());
    assert_eq!(options[2].text, b"C".to_vec());
}

#[test]
fn questions_sorted_by_evaluation_then_text() {
    let raw = raw_course(vec![
        raw_question(
            1,
            "zeta",
            "midterm",
            vec![raw_option(2, "A", true), raw_option(3, "B", false)],
        ),
        raw_question(
            4,
            "alpha",
            "midterm",
            vec![raw_option(5, "A", true), raw_option(6, "B", false)],
        ),
        raw_question(
            7,
            "beta",
            "final",
            vec![raw_option(8, "A", true), raw_option(9, "B", false)],
        ),
    ]);
    let c = CourseData::prepare(b"c1".to_vec(), raw).unwrap();
    assert_eq!(c.questions[0].evaluation, b"final".to_vec());
    assert_eq!(c.questions[1].text, b"alpha".to_vec());
    assert_eq!(c.questions[2].text, b"zeta".to_vec());
}

#[test]
fn pipeline_is_deterministic() {
    let build = || {
        raw_course(vec![raw_question(
            1,
            "q",
            "midterm",
            vec![raw_option(2, "A", true), raw_option(3, "B", false)],
        )])
    };
    let c1 = CourseData::prepare(b"c1".to_vec(), build()).unwrap();
    let c2 = CourseData::prepare(b"c1".to_vec(), build()).unwrap();
    assert_eq!(c1.hash, c2.hash);
    assert_eq!(c1.questions[0].hash, c2.questions[0].hash);
    assert_eq!(
        c1.questions[0].question_options[0].hash,
        c2.questions[0].question_options[0].hash
    );
}

#[test]
fn reordered_input_hashes_identically() {
    let ordered = raw_course(vec![
        raw_question(
            1,
            "alpha",
            "midterm",
            vec![raw_option(2, "A", true), raw_option(3, "B", false)],
        ),
        raw_question(
            4,
            "beta",
            "midterm",
            vec![raw_option(5, "C", true), raw_option(6, "D", false)],
        ),
    ]);
    let reordered = raw_course(vec![
        raw_question(
            4,
            "beta",
            "midterm",
            vec![raw_option(6, "D", false), raw_option(5, "C", true)],
        ),
        raw_question(
            1,
            "alpha",
            "midterm",
            vec![raw_option(3, "B", false), raw_option(2, "A", true)],
        ),
    ]);
    let c1 = CourseData::prepare(b"c1".to_vec(), ordered).unwrap();
    let c2 = CourseData::prepare(b"c1".to_vec(), reordered).unwrap();
    assert_eq!(c1.hash, c2.hash);
    assert_eq!(c1.questions.len(), c2.questions.len());
    for (q1, q2) in c1.questions.iter().zip(c2.questions.iter()) {
        assert_eq!(q1.id, q2.id);
        assert_eq!(q1.hash, q2.hash);
    }
}

#[test]
fn canonicalization_is_idempotent() {
    let raw = raw_course(vec![
        raw_question(
            1,
            " zeta ",
            "midterm",
            vec![raw_option(2, "C ", false), raw_option(3, "A", true)],
        ),
        raw_question(
            4,
            "alpha",
            "final",
            vec![raw_option(5, "A", true), raw_option(6, "B", false)],
        ),
    ]);
    let mut c = CourseData::prepare(b"c1".to_vec(), raw).unwrap();
    let before_hash = c.hash.clone();
    let before_texts: Vec<Vec<u8>> = c.questions.iter().map(|q| q.text.clone()).collect();
    c.canonicalize();
    c.set_hashes();
    assert_eq!(c.hash, before_hash);
    let after_texts: Vec<Vec<u8>> = c.questions.iter().map(|q| q.text.clone()).collect();
    assert_eq!(before_texts, after_texts);
}

#[test]
fn leaf_change_propagates_and_spares_siblings() {
    let build = |text_b: &str| {
        raw_course(vec![
            raw_question(
                1,
                "alpha",
                "midterm",
                vec![raw_option(2, "A", true), raw_option(3, text_b, false)],
            ),
            raw_question(
                4,
                "beta",
                "midterm",
                vec![raw_option(5, "C", true), raw_option(6, "D", false)],
            ),
        ])
    };
    let c1 = CourseData::prepare(b"c1".to_vec(), build("B")).unwrap();
    let c2 = CourseData::prepare(b"c1".to_vec(), build("E")).unwrap();
    // The changed option, its question and its course all change hash.
    assert_ne!(
        c1.questions[0].question_options[1].hash,
        c2.questions[0].question_options[1].hash
    );
    assert_ne!(c1.questions[0].hash, c2.questions[0].hash);
    assert_ne!(c1.hash, c2.hash);
    // The sibling option and the sibling question keep their hashes.
    assert_eq!(
        c1.questions[0].question_options[0].hash,
        c2.questions[0].question_options[0].hash
    );
    assert_eq!(c1.questions[1].hash, c2.questions[1].hash);
}

#[test]
fn correctness_flag_change_propagates() {
    let build = |first_correct: bool| {
        raw_course(vec![raw_question(
            1,
            "alpha",
            "midterm",
            vec![
                raw_option(2, "A", first_correct),
                raw_option(3, "B", !first_correct),
            ],
        )])
    };
    let c1 = CourseData::prepare(b"c1".to_vec(), build(true)).unwrap();
    let c2 = CourseData::prepare(b"c1".to_vec(), build(false)).unwrap();
    assert_ne!(c1.questions[0].hash, c2.questions[0].hash);
    assert_ne!(c1.hash, c2.hash);
}

#[test]
fn write_back_uses_canonical_order() {
    let raw = raw_course(vec![raw_question(
        1,
        "q",
        "midterm",
        vec![raw_option(2, "B", false), raw_option(3, "A", true)],
    )]);
    let c = CourseData::prepare(b"c1".to_vec(), raw).unwrap();
    let out = c.to_raw();
    assert_eq!(out.questions.len(), 1);
    let q = &out.questions[0];
    assert_eq!(q.id, Some(vec![1u8; 16]));
    assert_eq!(q.options[0].text, b"A".to_vec());
    assert_eq!(q.options[0].correct, Some(true));
    assert_eq!(q.options[1].text, b"B".to_vec());
    assert_eq!(q.options[1].correct, None);
}

#[test]
fn questions_without_ask_date_come_first() {
    let mut early = raw_question(
        1,
        "same",
        "midterm",
        vec![raw_option(2, "A", true), raw_option(3, "B", false)],
    );
    early.asked_at = Some(b"2023-05-01".to_vec());
    let mut late = raw_question(
        4,
        "same",
        "midterm",
        vec![raw_option(5, "C", true), raw_option(6, "D", false)],
    );
    late.asked_at = None;
    let raw = raw_course(vec![early, late]);
    let c = CourseData::prepare(b"c1".to_vec(), raw).unwrap();
    assert_eq!(c.questions[0].asked_at, None);
    assert_eq!(c.questions[1].asked_at, Some(b"2023-05-01".to_vec()));
}

#[test]
fn identity_breaks_remaining_ties() {
    let raw = raw_course(vec![
        raw_question(
            9,
            "same",
            "midterm",
            vec![raw_option(2, "A", true), raw_option(3, "B", false)],
        ),
        raw_question(
            1,
            "same",
            "midterm",
            vec![raw_option(5, "C", true), raw_option(6, "D", false)],
        ),
    ]);
    let c = CourseData::prepare(b"c1".to_vec(), raw).unwrap();
    assert_eq!(c.questions[0].id, vec![1u8; 16]);
    assert_eq!(c.questions[1].id, vec![9u8; 16]);
}

#[test]
fn explanation_distinguishes_options() {
    let mut with_note = raw_option(3, "B", false);
    with_note.explanation = Some(b"a note".to_vec());
    let raw = raw_course(vec![raw_question(
        1,
        "q",
        "midterm",
        vec![raw_option(2, "A", true), raw_option(4, "B", false), with_note],
    )]);
    let c = CourseData::prepare(b"c1".to_vec(), raw).unwrap();
    // Same text and correctness but different explanation: not duplicates.
    assert_eq!(c.questions[0].question_options.len(), 3);
}
