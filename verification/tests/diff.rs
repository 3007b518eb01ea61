use medici_data_sync::{
    CourseData, CourseEvaluationData, RawCourseData, RawCourseEvaluationData, RawQuestionData,
    RawQuestionOptionData, SyncMetadata, compute_sync_data,
};

fn raw_option(id: u8, text: &str, correct: bool) -> RawQuestionOptionData {
    RawQuestionOptionData {
        id: Some(vec![id; 16]),
        text: text.as_bytes().to_vec(),
        correct: if correct { Some(true) } else { None },
        explanation: None,
    }
}

fn raw_question(
    id: u8,
    text: &str,
    evaluation: &str,
    options: Vec<RawQuestionOptionData>,
) -> RawQuestionData {
    RawQuestionData {
        id: Some(vec![id; 16]),
        text: text.as_bytes().to_vec(),
        options,
        evaluation: evaluation.as_bytes().to_vec(),
        source: b"book".to_vec(),
        asked_at: None,
        image: None,
    }
}

fn one_course() -> CourseData {
    let raw = RawCourseData {
        name: b"Course One".to_vec(),
        short_name: b"C1".to_vec(),
        aliases: vec![],
        year: None,
        questions: vec![raw_question(
            1,
            "q1",
            "midterm",
            vec![raw_option(2, "A", true), raw_option(3, "B", false)],
        )],
        evaluations: vec![RawCourseEvaluationData {
            key: b"midterm".to_vec(),
            name: b"Midterm Exam".to_vec(),
        }],
    };
    CourseData::prepare(b"c1".to_vec(), raw).unwrap()
}

#[test]
fn changed_course_unchanged_question_new_option() {
    // Remote: the course hash is stale, the question hash matches, the
    // option was never seen, and the remote knows two evaluation keys.
    let local = one_course();
    let q_hash = local.questions[0].hash.clone();
    let q_id = local.questions[0].id.clone();
    let o_id = local.questions[0].question_options[0].id.clone();
    let metadata = SyncMetadata {
        courses_metadata: vec![(b"c1".to_vec(), b"stale".to_vec())],
        questions_metadata: vec![(q_id, q_hash)],
        question_options_metadata: vec![],
        course_evaluations: vec![b"c1/midterm".to_vec(), b"c1/final".to_vec()],
    };
    let r = compute_sync_data(vec![local], &metadata);

    assert_eq!(r.courses_to_sync.len(), 1);
    assert_eq!(r.courses_to_sync[0].key, b"c1".to_vec());
    assert_eq!(r.courses_to_sync[0].questions.len(), 0);

    assert_eq!(r.questions_to_sync.len(), 0);

    // Both options were absent remotely, so both are sent, bound to their
    // question; the first is the one with identity `o_id`.
    assert_eq!(r.question_options_to_sync.len(), 2);
    assert_eq!(r.question_options_to_sync[0].id, o_id);
    assert_eq!(
        r.question_options_to_sync[0].question_id,
        Some(vec![1u8; 16])
    );

    assert_eq!(r.course_evaluations_to_sync.len(), 1);
    assert_eq!(r.course_evaluations_to_sync[0].key, b"c1/midterm".to_vec());
    assert_eq!(r.course_evaluations_to_sync[0].name, b"Midterm Exam".to_vec());
    assert_eq!(
        r.course_evaluations_to_sync[0].course_key,
        Some(b"c1".to_vec())
    );

    assert_eq!(r.course_evaluations_to_delete, vec![b"c1/final".to_vec()]);
    assert!(r.courses_to_delete.is_empty());
    assert!(r.questions_to_delete.is_empty());
    assert!(r.question_options_to_delete.is_empty());
}

#[test]
fn full_match_yields_empty_changeset() {
    let local = one_course();
    let metadata = SyncMetadata {
        courses_metadata: vec![(local.key.clone(), local.hash.clone())],
        questions_metadata: vec![(
            local.questions[0].id.clone(),
            local.questions[0].hash.clone(),
        )],
        question_options_metadata: local.questions[0]
            .question_options
            .iter()
            .map(|o| (o.id.clone(), o.hash.clone()))
            .collect(),
        course_evaluations: vec![b"c1/midterm".to_vec()],
    };
    let r = compute_sync_data(vec![local], &metadata);
    assert!(r.courses_to_sync.is_empty());
    assert!(r.courses_to_delete.is_empty());
    assert!(r.questions_to_sync.is_empty());
    assert!(r.questions_to_delete.is_empty());
    assert!(r.question_options_to_sync.is_empty());
    assert!(r.question_options_to_delete.is_empty());
    assert!(r.course_evaluations_to_sync.is_empty());
    assert!(r.course_evaluations_to_delete.is_empty());
}

#[test]
fn vanished_course_is_deleted_with_its_subtree() {
    // The remote remembers a course with a question, an option and two
    // evaluations; locally nothing remains.
    let metadata = SyncMetadata {
        courses_metadata: vec![(b"c2".to_vec(), b"h-course".to_vec())],
        questions_metadata: vec![(vec![9u8; 16], b"h-question".to_vec())],
        question_options_metadata: vec![(vec![8u8; 16], b"h-option".to_vec())],
        course_evaluations: vec![b"c2/midterm".to_vec(), b"c2/final".to_vec()],
    };
    let r = compute_sync_data(vec![], &metadata);
    assert_eq!(r.courses_to_delete, vec![b"c2".to_vec()]);
    assert_eq!(r.questions_to_delete, vec![vec![9u8; 16]]);
    assert_eq!(r.question_options_to_delete, vec![vec![8u8; 16]]);
    assert_eq!(
        r.course_evaluations_to_delete,
        vec![b"c2/midterm".to_vec(), b"c2/final".to_vec()]
    );
    assert!(r.courses_to_sync.is_empty());
    assert!(r.questions_to_sync.is_empty());
    assert!(r.question_options_to_sync.is_empty());
    assert!(r.course_evaluations_to_sync.is_empty());
}

#[test]
fn changed_question_is_sent_bound_and_qualified() {
    let local = one_course();
    let metadata = SyncMetadata {
        courses_metadata: vec![(local.key.clone(), local.hash.clone())],
        questions_metadata: vec![],
        question_options_metadata: local.questions[0]
            .question_options
            .iter()
            .map(|o| (o.id.clone(), o.hash.clone()))
            .collect(),
        course_evaluations: vec![b"c1/midterm".to_vec()],
    };
    let expected_hash = local.questions[0].hash.clone();
    let r = compute_sync_data(vec![local], &metadata);
    // The question was absent remotely: it is sent, bound to its course,
    // its evaluation fully qualified, its hash untouched, its options
    // travelling separately.
    assert_eq!(r.questions_to_sync.len(), 1);
    let q = &r.questions_to_sync[0];
    assert_eq!(q.course_key, Some(b"c1".to_vec()));
    assert_eq!(q.evaluation, b"c1/midterm".to_vec());
    assert_eq!(q.hash, expected_hash);
    assert!(q.question_options.is_empty());
    // Its evaluation is upserted even though the course is unchanged.
    assert_eq!(r.course_evaluations_to_sync.len(), 1);
    assert_eq!(r.course_evaluations_to_sync[0].key, b"c1/midterm".to_vec());
    // Nothing is deleted: the evaluation key is still referenced.
    assert!(r.course_evaluations_to_delete.is_empty());
    assert!(r.courses_to_sync.is_empty());
    assert!(r.question_options_to_sync.is_empty());
}

#[test]
fn full_key_joins_course_and_evaluation() {
    let k = CourseEvaluationData::full_key(b"c1", b"midterm");
    assert_eq!(k, b"c1/midterm".to_vec());
}
