//! The processing pipeline for one course: instantiate the raw records,
//! validate, canonicalize, hash — and the conversion back to raw records
//! for writing the canonicalized source unit out.

use vstd::prelude::*;

use crate::canon::canonical_course;
use crate::data::{
    CourseData, CourseView, OptionView, QuestionData, QuestionOptionData, QuestionView,
    RawCourseData, RawCourseEvaluationData, RawOptionView, RawQuestionData,
    RawQuestionOptionData, RawCourseView, RawEvaluationView, RawQuestionView, course_instantiates,
    option_instantiates, question_instantiates, raw_evaluation_views, raw_option_views,
    raw_question_views,
};
use crate::hashing::hashed_course;
use crate::validate::{
    ValidationError, correct_count, count_correct, course_valid, expected_question_error,
    question_valid,
};

verus! {

// ---------------------------------------------------------------------------
// Validity of raw records.
// ---------------------------------------------------------------------------

/// How many raw options are marked correct.
pub open spec fn raw_correct_count(ros: Seq<RawOptionView>) -> int
    decreases ros.len(),
{
    if ros.len() == 0 {
        0
    } else {
        raw_correct_count(ros.drop_last()) + if ros.last().correct == Some(true) {
            1int
        } else {
            0int
        }
    }
}

/// Whether a raw question meets the structural rules: 2 to 5 options,
/// exactly one of them correct.
pub open spec fn raw_question_valid(rq: RawQuestionView) -> bool {
    2 <= rq.options.len() <= 5 && raw_correct_count(rq.options) == 1
}

/// Whether every raw question of a course meets the structural rules.
pub open spec fn raw_course_valid(rc: RawCourseView) -> bool {
    forall|i: int| 0 <= i < rc.questions.len() ==> raw_question_valid(#[trigger] rc.questions[i])
}

proof fn lemma_count_correct_instantiated(os: Seq<OptionView>, ros: Seq<RawOptionView>)
    requires
        os.len() == ros.len(),
        forall|i: int| 0 <= i < ros.len() ==> option_instantiates(#[trigger] os[i], ros[i]),
    ensures
        count_correct(os) == raw_correct_count(ros),
    decreases os.len(),
{
    if os.len() > 0 {
        assert(forall|i: int|
            0 <= i < ros.len() - 1 ==> option_instantiates(
                #[trigger] os.drop_last()[i],
                ros.drop_last()[i],
            ));
        lemma_count_correct_instantiated(os.drop_last(), ros.drop_last());
        assert(option_instantiates(os[os.len() - 1], ros[ros.len() - 1]));
        assert(os.last().correct == (ros.last().correct == Some(true)));
    }
}

/// Validity is decided by the raw record alone: instantiation (including
/// identity generation) neither mends nor breaks a question.
proof fn lemma_question_valid_instantiated(q: QuestionView, rq: RawQuestionView)
    requires
        question_instantiates(q, rq),
    ensures
        question_valid(q) == raw_question_valid(rq),
        correct_count(q) == raw_correct_count(rq.options),
        q.question_options.len() == rq.options.len(),
{
    lemma_count_correct_instantiated(q.question_options, rq.options);
}

// ---------------------------------------------------------------------------
// The pipeline.
// ---------------------------------------------------------------------------

impl CourseData {
    /// Builds the fully processed course for a raw record: instantiates it
    /// (generating identities where absent), validates every question,
    /// canonicalizes the tree and assigns every digest bottom-up. Fails
    /// with the first invalid question's error, and succeeds exactly when
    /// the raw record is structurally valid.
    pub fn prepare(key: Vec<u8>, raw: RawCourseData) -> (r: Result<CourseData, ValidationError>)
        ensures
            (r is Ok) == raw_course_valid(raw@),
            r matches Ok(c) ==> exists|inst: CourseView|
                #![auto]
                course_instantiates(inst, key@, raw@) && c@ == hashed_course(
                    canonical_course(inst),
                ),
            r matches Err(e) ==> exists|inst: CourseView, i: int|
                #![auto]
                course_instantiates(inst, key@, raw@) && 0 <= i < raw@.questions.len()
                    && !raw_question_valid(raw@.questions[i]) && (forall|k: int|
                    0 <= k < i ==> raw_question_valid(#[trigger] raw@.questions[k])) && e@
                    == expected_question_error(inst.questions[i]),
    {
        let ghost rv = raw@;
        let mut c = CourseData::new(key, raw);
        let ghost inst = c@;
        proof {
            assert(inst.questions.len() == rv.questions.len());
            assert forall|i: int|
                #![trigger inst.questions[i]]
                #![trigger rv.questions[i]]
                0 <= i < rv.questions.len() implies question_valid(inst.questions[i])
                == raw_question_valid(rv.questions[i]) by {
                lemma_question_valid_instantiated(inst.questions[i], rv.questions[i]);
            }
            assert(course_valid(inst) == raw_course_valid(rv));
        }
        match c.check() {
            Ok(()) => {},
            Err(e) => {
                proof {
                    let i = choose|i: int|
                        0 <= i < inst.questions.len() && !question_valid(
                            #[trigger] inst.questions[i],
                        ) && (forall|k: int|
                            0 <= k < i ==> question_valid(#[trigger] inst.questions[k])) && e@
                            == expected_question_error(inst.questions[i]);
                    assert(!raw_question_valid(rv.questions[i]));
                    assert(forall|k: int|
                        0 <= k < i ==> raw_question_valid(#[trigger] rv.questions[k]));
                }
                return Err(e);
            },
        }
        c.canonicalize();
        c.set_hashes();
        Ok(c)
    }
}

// ---------------------------------------------------------------------------
// Back to raw records, for the canonical write-back.
// ---------------------------------------------------------------------------

/// The raw record a processed option writes back to: identity kept, the
/// correctness flag present only when set.
pub open spec fn raw_of_option(o: OptionView) -> RawOptionView {
    RawOptionView {
        id: Some(o.id),
        text: o.text,
        correct: if o.correct {
            Some(true)
        } else {
            None
        },
        explanation: o.explanation,
    }
}

/// The raw record a processed question writes back to.
pub open spec fn raw_of_question(q: QuestionView) -> RawQuestionView {
    RawQuestionView {
        id: Some(q.id),
        text: q.text,
        options: q.question_options.map_values(|o: OptionView| raw_of_option(o)),
        evaluation: q.evaluation,
        source: q.source,
        asked_at: q.asked_at,
        image: q.image_url,
    }
}

/// The raw record a processed course writes back to.
pub open spec fn raw_of_course(c: CourseView) -> RawCourseView {
    RawCourseView {
        name: c.name,
        short_name: c.short_name,
        aliases: c.aliases,
        year: c.year,
        questions: c.questions.map_values(|q: QuestionView| raw_of_question(q)),
        evaluations: c.evaluations.map_values(
            |e: crate::data::EvaluationView| RawEvaluationView { key: e.key, name: e.name },
        ),
    }
}

impl QuestionOptionData {
    /// The raw record this option writes back to.
    pub fn to_raw(self) -> (r: RawQuestionOptionData)
        ensures
            r@ == raw_of_option(self@),
    {
        let r = RawQuestionOptionData {
            id: Some(self.id),
            text: self.text,
            correct: if self.correct {
                Some(true)
            } else {
                None
            },
            explanation: self.explanation,
        };
        proof {
            assert(r@ =~~= raw_of_option(self@));
        }
        r
    }
}

impl QuestionData {
    /// The raw record this question writes back to.
    pub fn to_raw(self) -> (r: RawQuestionData)
        ensures
            r@ == raw_of_question(self@),
    {
        let ghost qv = self@;
        let QuestionData {
            id,
            course_key: _,
            evaluation,
            source,
            asked_at,
            text,
            image_url,
            question_options,
            hash: _,
        } = self;
        let mut raw_options: Vec<RawQuestionOptionData> = Vec::new();
        let mut rest = question_options;
        proof {
            assert(crate::data::option_views(rest@) =~= qv.question_options.skip(0));
        }
        while rest.len() > 0
            invariant
                rest@.len() <= qv.question_options.len(),
                crate::data::option_views(rest@) == qv.question_options.skip(
                    qv.question_options.len() - rest@.len(),
                ),
                raw_option_views(raw_options@) == qv.question_options.take(
                    qv.question_options.len() - rest@.len(),
                ).map_values(|o: OptionView| raw_of_option(o)),
            decreases rest@.len(),
        {
            let ghost oi = qv.question_options.len() - rest@.len();
            let ghost rest_pre = rest@;
            let o = rest.remove(0);
            proof {
                assert(crate::data::option_views(rest_pre)[0] == o@);
                assert(o@ == qv.question_options[oi]);
                assert forall|t: int|
                    0 <= t < rest@.len() implies crate::data::option_views(rest@)[t]
                    == qv.question_options.skip(oi + 1)[t] by {
                    assert(rest@[t] == rest_pre[t + 1]);
                    assert(crate::data::option_views(rest_pre)[t + 1] == qv.question_options.skip(
                        oi as int,
                    )[t + 1]);
                }
                assert(crate::data::option_views(rest@) =~= qv.question_options.skip(oi + 1));
            }
            let ghost prev = raw_option_views(raw_options@);
            let built = o.to_raw();
            raw_options.push(built);
            proof {
                assert(raw_option_views(raw_options@) =~= prev.push(raw_of_option(
                    qv.question_options[oi],
                )));
                assert(qv.question_options.take(oi + 1).map_values(
                    |o: OptionView| raw_of_option(o),
                ) =~= qv.question_options.take(oi as int).map_values(
                    |o: OptionView| raw_of_option(o),
                ).push(raw_of_option(qv.question_options[oi])));
            }
        }
        proof {
            assert(qv.question_options.take(qv.question_options.len() as int)
                =~= qv.question_options);
        }
        let r = RawQuestionData { id: Some(id), text, options: raw_options, evaluation, source, asked_at, image: image_url };
        proof {
            assert(r@ =~~= raw_of_question(qv));
        }
        r
    }
}

impl CourseData {
    /// The raw record this course writes back to, in the exact canonical
    /// ordering it holds.
    pub fn to_raw(self) -> (r: RawCourseData)
        ensures
            r@ == raw_of_course(self@),
    {
        let ghost cv = self@;
        let CourseData {
            key: _,
            name,
            short_name,
            aliases,
            year,
            questions,
            evaluations,
            hash: _,
        } = self;
        let mut raw_questions: Vec<RawQuestionData> = Vec::new();
        let mut rest = questions;
        proof {
            assert(crate::data::question_views(rest@) =~= cv.questions.skip(0));
        }
        while rest.len() > 0
            invariant
                rest@.len() <= cv.questions.len(),
                crate::data::question_views(rest@) == cv.questions.skip(
                    cv.questions.len() - rest@.len(),
                ),
                raw_question_views(raw_questions@) == cv.questions.take(
                    cv.questions.len() - rest@.len(),
                ).map_values(|q: QuestionView| raw_of_question(q)),
            decreases rest@.len(),
        {
            let ghost qi = cv.questions.len() - rest@.len();
            let ghost rest_pre = rest@;
            let q = rest.remove(0);
            proof {
                assert(crate::data::question_views(rest_pre)[0] == q@);
                assert(q@ == cv.questions[qi]);
                assert forall|t: int|
                    0 <= t < rest@.len() implies crate::data::question_views(rest@)[t]
                    == cv.questions.skip(qi + 1)[t] by {
                    assert(rest@[t] == rest_pre[t + 1]);
                    assert(crate::data::question_views(rest_pre)[t + 1] == cv.questions.skip(
                        qi as int,
                    )[t + 1]);
                }
                assert(crate::data::question_views(rest@) =~= cv.questions.skip(qi + 1));
            }
            let ghost prev = raw_question_views(raw_questions@);
            let built = q.to_raw();
            raw_questions.push(built);
            proof {
                assert(raw_question_views(raw_questions@) =~= prev.push(raw_of_question(
                    cv.questions[qi],
                )));
                assert(cv.questions.take(qi + 1).map_values(
                    |q: QuestionView| raw_of_question(q),
                ) =~= cv.questions.take(qi as int).map_values(
                    |q: QuestionView| raw_of_question(q),
                ).push(raw_of_question(cv.questions[qi])));
            }
        }
        proof {
            assert(cv.questions.take(cv.questions.len() as int) =~= cv.questions);
        }
        let mut raw_evaluations: Vec<RawCourseEvaluationData> = Vec::new();
        let mut erest = evaluations;
        proof {
            assert(crate::data::evaluation_views(erest@) =~= cv.evaluations.skip(0));
        }
        while erest.len() > 0
            invariant
                erest@.len() <= cv.evaluations.len(),
                crate::data::evaluation_views(erest@) == cv.evaluations.skip(
                    cv.evaluations.len() - erest@.len(),
                ),
                raw_evaluation_views(raw_evaluations@) == cv.evaluations.take(
                    cv.evaluations.len() - erest@.len(),
                ).map_values(
                    |e: crate::data::EvaluationView| RawEvaluationView {
                        key: e.key,
                        name: e.name,
                    },
                ),
            decreases erest@.len(),
        {
            let ghost ei = cv.evaluations.len() - erest@.len();
            let ghost erest_pre = erest@;
            let e = erest.remove(0);
            proof {
                assert(crate::data::evaluation_views(erest_pre)[0] == e@);
                assert(e@ == cv.evaluations[ei]);
                assert forall|t: int|
                    0 <= t < erest@.len() implies crate::data::evaluation_views(erest@)[t]
                    == cv.evaluations.skip(ei + 1)[t] by {
                    assert(erest@[t] == erest_pre[t + 1]);
                    assert(crate::data::evaluation_views(erest_pre)[t + 1] == cv.evaluations.skip(
                        ei as int,
                    )[t + 1]);
                }
                assert(crate::data::evaluation_views(erest@) =~= cv.evaluations.skip(ei + 1));
            }
            let ghost prev = raw_evaluation_views(raw_evaluations@);
            let built = RawCourseEvaluationData { key: e.key, name: e.name };
            raw_evaluations.push(built);
            proof {
                assert(raw_evaluation_views(raw_evaluations@) =~= prev.push(
                    RawEvaluationView { key: cv.evaluations[ei].key, name: cv.evaluations[ei].name },
                ));
                assert(cv.evaluations.take(ei + 1).map_values(
                    |e: crate::data::EvaluationView| RawEvaluationView {
                        key: e.key,
                        name: e.name,
                    },
                ) =~= cv.evaluations.take(ei as int).map_values(
                    |e: crate::data::EvaluationView| RawEvaluationView {
                        key: e.key,
                        name: e.name,
                    },
                ).push(
                    RawEvaluationView { key: cv.evaluations[ei].key, name: cv.evaluations[ei].name },
                ));
            }
        }
        proof {
            assert(cv.evaluations.take(cv.evaluations.len() as int) =~= cv.evaluations);
        }
        let r = RawCourseData {
            name,
            short_name,
            aliases,
            year,
            questions: raw_questions,
            evaluations: raw_evaluations,
        };
        proof {
            assert(r@ =~~= raw_of_course(cv));
        }
        r
    }
}

} // verus!
