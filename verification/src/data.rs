//! The canonical entity model: courses, questions, question options, and
//! derived course evaluations.
//!
//! Every entity is held as plain values — identifiers as 16-byte strings,
//! text as UTF-8 bytes — and carries a `hash` field that the hierarchical
//! hasher fills in bottom-up once the tree is canonical. Identity is
//! assigned once (generated when absent from the raw input) and never
//! changes; content changes change `hash` but not `id`. Back-references
//! (`course_key` on a question or an evaluation, `question_id` on an
//! option) are bound late, by the diff engine, and never enter any hash.

use vstd::prelude::*;

use crate::digest::{blake3_hex, blake3_hex_of, generate_id};
use crate::text::copy_bytes;

verus! {

/// Separator between a course key and an evaluation key in a fully
/// qualified evaluation key.
pub const COURSE_EVALUATION_KEY_SEPARATOR: u8 = 0x2fu8;

// ---------------------------------------------------------------------------
// Raw input records, as read from a source unit (one file per course).
// ---------------------------------------------------------------------------

/// A question option as it stands in a source unit; `id` is absent on first
/// ingestion and `correct` may be omitted (meaning `false`).
#[derive(Clone, Debug)]
pub struct RawQuestionOptionData {
    pub id: Option<Vec<u8>>,
    pub text: Vec<u8>,
    pub correct: Option<bool>,
    pub explanation: Option<Vec<u8>>,
}

/// A question as it stands in a source unit.
#[derive(Clone, Debug)]
pub struct RawQuestionData {
    pub id: Option<Vec<u8>>,
    pub text: Vec<u8>,
    pub options: Vec<RawQuestionOptionData>,
    pub evaluation: Vec<u8>,
    pub source: Vec<u8>,
    pub asked_at: Option<Vec<u8>>,
    pub image: Option<Vec<u8>>,
}

/// An evaluation as declared in a course's source unit.
#[derive(Clone, Debug)]
pub struct RawCourseEvaluationData {
    pub key: Vec<u8>,
    pub name: Vec<u8>,
}

/// A course as it stands in a source unit; its key comes from the file name.
#[derive(Clone, Debug)]
pub struct RawCourseData {
    pub name: Vec<u8>,
    pub short_name: Vec<u8>,
    pub aliases: Vec<Vec<u8>>,
    pub year: Option<i16>,
    pub questions: Vec<RawQuestionData>,
    pub evaluations: Vec<RawCourseEvaluationData>,
}

#[verifier::ext_equal]
pub ghost struct RawOptionView {
    pub id: Option<Seq<u8>>,
    pub text: Seq<u8>,
    pub correct: Option<bool>,
    pub explanation: Option<Seq<u8>>,
}

#[verifier::ext_equal]
pub ghost struct RawQuestionView {
    pub id: Option<Seq<u8>>,
    pub text: Seq<u8>,
    pub options: Seq<RawOptionView>,
    pub evaluation: Seq<u8>,
    pub source: Seq<u8>,
    pub asked_at: Option<Seq<u8>>,
    pub image: Option<Seq<u8>>,
}

#[verifier::ext_equal]
pub ghost struct RawEvaluationView {
    pub key: Seq<u8>,
    pub name: Seq<u8>,
}

#[verifier::ext_equal]
pub ghost struct RawCourseView {
    pub name: Seq<u8>,
    pub short_name: Seq<u8>,
    pub aliases: Seq<Seq<u8>>,
    pub year: Option<i16>,
    pub questions: Seq<RawQuestionView>,
    pub evaluations: Seq<RawEvaluationView>,
}

/// The view of an optional byte string.
pub open spec fn view_opt(o: Option<Vec<u8>>) -> Option<Seq<u8>> {
    match o {
        Some(v) => Some(v@),
        None => None,
    }
}

/// The views of a sequence of byte strings.
pub open spec fn bytes_views(s: Seq<Vec<u8>>) -> Seq<Seq<u8>> {
    s.map_values(|b: Vec<u8>| b@)
}

/// The views of a sequence of raw option records.
pub open spec fn raw_option_views(s: Seq<RawQuestionOptionData>) -> Seq<RawOptionView> {
    s.map_values(|o: RawQuestionOptionData| o@)
}

/// The views of a sequence of raw question records.
pub open spec fn raw_question_views(s: Seq<RawQuestionData>) -> Seq<RawQuestionView> {
    s.map_values(|q: RawQuestionData| q@)
}

/// The views of a sequence of raw evaluation records.
pub open spec fn raw_evaluation_views(s: Seq<RawCourseEvaluationData>) -> Seq<RawEvaluationView> {
    s.map_values(|e: RawCourseEvaluationData| e@)
}

impl View for RawQuestionOptionData {
    type V = RawOptionView;

    open spec fn view(&self) -> RawOptionView {
        RawOptionView {
            id: view_opt(self.id),
            text: self.text@,
            correct: self.correct,
            explanation: view_opt(self.explanation),
        }
    }
}

impl View for RawQuestionData {
    type V = RawQuestionView;

    open spec fn view(&self) -> RawQuestionView {
        RawQuestionView {
            id: view_opt(self.id),
            text: self.text@,
            options: raw_option_views(self.options@),
            evaluation: self.evaluation@,
            source: self.source@,
            asked_at: view_opt(self.asked_at),
            image: view_opt(self.image),
        }
    }
}

impl View for RawCourseEvaluationData {
    type V = RawEvaluationView;

    open spec fn view(&self) -> RawEvaluationView {
        RawEvaluationView { key: self.key@, name: self.name@ }
    }
}

impl View for RawCourseData {
    type V = RawCourseView;

    open spec fn view(&self) -> RawCourseView {
        RawCourseView {
            name: self.name@,
            short_name: self.short_name@,
            aliases: bytes_views(self.aliases@),
            year: self.year,
            questions: raw_question_views(self.questions@),
            evaluations: raw_evaluation_views(self.evaluations@),
        }
    }
}

// ---------------------------------------------------------------------------
// Canonical entities.
// ---------------------------------------------------------------------------

/// A question option. Owned exclusively by its question.
#[derive(Clone, Debug)]
pub struct QuestionOptionData {
    pub id: Vec<u8>,
    pub question_id: Option<Vec<u8>>,
    pub text: Vec<u8>,
    pub correct: bool,
    pub explanation: Option<Vec<u8>>,
    pub hash: Vec<u8>,
}

/// A question. Owned exclusively by its course.
#[derive(Clone, Debug)]
pub struct QuestionData {
    pub id: Vec<u8>,
    pub course_key: Option<Vec<u8>>,
    pub evaluation: Vec<u8>,
    pub source: Vec<u8>,
    pub asked_at: Option<Vec<u8>>,
    pub text: Vec<u8>,
    pub image_url: Option<Vec<u8>>,
    pub question_options: Vec<QuestionOptionData>,
    pub hash: Vec<u8>,
}

/// An evaluation a course's questions can be tagged with. Its hash depends
/// on its display name alone, so it is stable under re-keying.
#[derive(Clone, Debug)]
pub struct CourseEvaluationData {
    pub course_key: Option<Vec<u8>>,
    pub key: Vec<u8>,
    pub name: Vec<u8>,
    pub hash: Vec<u8>,
}

/// A course: the top level of the ownership tree.
#[derive(Clone, Debug)]
pub struct CourseData {
    pub key: Vec<u8>,
    pub name: Vec<u8>,
    pub short_name: Vec<u8>,
    pub aliases: Vec<Vec<u8>>,
    pub year: Option<i16>,
    pub questions: Vec<QuestionData>,
    pub evaluations: Vec<CourseEvaluationData>,
    pub hash: Vec<u8>,
}

#[verifier::ext_equal]
pub ghost struct OptionView {
    pub id: Seq<u8>,
    pub question_id: Option<Seq<u8>>,
    pub text: Seq<u8>,
    pub correct: bool,
    pub explanation: Option<Seq<u8>>,
    pub hash: Seq<u8>,
}

#[verifier::ext_equal]
pub ghost struct QuestionView {
    pub id: Seq<u8>,
    pub course_key: Option<Seq<u8>>,
    pub evaluation: Seq<u8>,
    pub source: Seq<u8>,
    pub asked_at: Option<Seq<u8>>,
    pub text: Seq<u8>,
    pub image_url: Option<Seq<u8>>,
    pub question_options: Seq<OptionView>,
    pub hash: Seq<u8>,
}

#[verifier::ext_equal]
pub ghost struct EvaluationView {
    pub course_key: Option<Seq<u8>>,
    pub key: Seq<u8>,
    pub name: Seq<u8>,
    pub hash: Seq<u8>,
}

#[verifier::ext_equal]
pub ghost struct CourseView {
    pub key: Seq<u8>,
    pub name: Seq<u8>,
    pub short_name: Seq<u8>,
    pub aliases: Seq<Seq<u8>>,
    pub year: Option<i16>,
    pub questions: Seq<QuestionView>,
    pub evaluations: Seq<EvaluationView>,
    pub hash: Seq<u8>,
}

/// The views of a sequence of question options.
pub open spec fn option_views(s: Seq<QuestionOptionData>) -> Seq<OptionView> {
    s.map_values(|o: QuestionOptionData| o@)
}

/// The views of a sequence of questions.
pub open spec fn question_views(s: Seq<QuestionData>) -> Seq<QuestionView> {
    s.map_values(|q: QuestionData| q@)
}

/// The views of a sequence of evaluations.
pub open spec fn evaluation_views(s: Seq<CourseEvaluationData>) -> Seq<EvaluationView> {
    s.map_values(|e: CourseEvaluationData| e@)
}

/// The views of a sequence of courses.
pub open spec fn course_views(s: Seq<CourseData>) -> Seq<CourseView> {
    s.map_values(|c: CourseData| c@)
}

impl View for QuestionOptionData {
    type V = OptionView;

    open spec fn view(&self) -> OptionView {
        OptionView {
            id: self.id@,
            question_id: view_opt(self.question_id),
            text: self.text@,
            correct: self.correct,
            explanation: view_opt(self.explanation),
            hash: self.hash@,
        }
    }
}

impl View for QuestionData {
    type V = QuestionView;

    open spec fn view(&self) -> QuestionView {
        QuestionView {
            id: self.id@,
            course_key: view_opt(self.course_key),
            evaluation: self.evaluation@,
            source: self.source@,
            asked_at: view_opt(self.asked_at),
            text: self.text@,
            image_url: view_opt(self.image_url),
            question_options: option_views(self.question_options@),
            hash: self.hash@,
        }
    }
}

impl View for CourseEvaluationData {
    type V = EvaluationView;

    open spec fn view(&self) -> EvaluationView {
        EvaluationView {
            course_key: view_opt(self.course_key),
            key: self.key@,
            name: self.name@,
            hash: self.hash@,
        }
    }
}

impl View for CourseData {
    type V = CourseView;

    open spec fn view(&self) -> CourseView {
        CourseView {
            key: self.key@,
            name: self.name@,
            short_name: self.short_name@,
            aliases: bytes_views(self.aliases@),
            year: self.year,
            questions: question_views(self.questions@),
            evaluations: evaluation_views(self.evaluations@),
            hash: self.hash@,
        }
    }
}

// ---------------------------------------------------------------------------
// Instantiation: raw records become entities, absent ids are generated.
// ---------------------------------------------------------------------------

/// The option that a raw option record instantiates to, given the identity
/// it ends up with.
pub open spec fn instantiated_option(ro: RawOptionView, id: Seq<u8>) -> OptionView {
    OptionView {
        id: id,
        question_id: None,
        text: ro.text,
        correct: ro.correct == Some(true),
        explanation: ro.explanation,
        hash: Seq::empty(),
    }
}

/// Whether `o` instantiates `ro`: identity kept when present, freshly
/// generated (16 bytes) when absent, all content carried over, hash unset.
pub open spec fn option_instantiates(o: OptionView, ro: RawOptionView) -> bool {
    &&& o == instantiated_option(ro, o.id)
    &&& match ro.id {
        Some(i) => o.id == i,
        None => o.id.len() == 16,
    }
}

/// The question that a raw question record instantiates to, given its
/// identity and its instantiated options.
pub open spec fn instantiated_question(
    rq: RawQuestionView,
    id: Seq<u8>,
    options: Seq<OptionView>,
) -> QuestionView {
    QuestionView {
        id: id,
        course_key: None,
        evaluation: rq.evaluation,
        source: rq.source,
        asked_at: rq.asked_at,
        text: rq.text,
        image_url: rq.image,
        question_options: options,
        hash: Seq::empty(),
    }
}

/// Whether `q` instantiates `rq`.
pub open spec fn question_instantiates(q: QuestionView, rq: RawQuestionView) -> bool {
    &&& q == instantiated_question(rq, q.id, q.question_options)
    &&& match rq.id {
        Some(i) => q.id == i,
        None => q.id.len() == 16,
    }
    &&& q.question_options.len() == rq.options.len()
    &&& forall|i: int|
        0 <= i < rq.options.len() ==> option_instantiates(
            #[trigger] q.question_options[i],
            rq.options[i],
        )
}

/// The evaluation that a raw evaluation record instantiates to: content
/// hashed by display name alone, not yet bound to a course.
pub open spec fn instantiated_evaluation(re: RawEvaluationView) -> EvaluationView {
    EvaluationView { course_key: None, key: re.key, name: re.name, hash: blake3_hex_of(re.name) }
}

/// Whether `c` instantiates the raw course record `rc` under `key`.
pub open spec fn course_instantiates(c: CourseView, key: Seq<u8>, rc: RawCourseView) -> bool {
    &&& c.key == key
    &&& c.name == rc.name
    &&& c.short_name == rc.short_name
    &&& c.aliases == rc.aliases
    &&& c.year == rc.year
    &&& c.hash == Seq::<u8>::empty()
    &&& c.questions.len() == rc.questions.len()
    &&& forall|i: int|
        0 <= i < rc.questions.len() ==> question_instantiates(
            #[trigger] c.questions[i],
            rc.questions[i],
        )
    &&& c.evaluations.len() == rc.evaluations.len()
    &&& forall|i: int|
        0 <= i < rc.evaluations.len() ==> #[trigger] c.evaluations[i] == instantiated_evaluation(
            rc.evaluations[i],
        )
}

impl QuestionOptionData {
    /// Builds the option for a raw record, generating a fresh identity when
    /// the record carries none.
    pub fn from_raw(raw: RawQuestionOptionData) -> (r: Self)
        ensures
            option_instantiates(r@, raw@),
    {
        let ghost rv = raw@;
        let id = match raw.id {
            Some(id) => id,
            None => generate_id(),
        };
        let correct = match raw.correct {
            Some(c) => c,
            None => false,
        };
        let r = QuestionOptionData {
            id,
            question_id: None,
            text: raw.text,
            correct,
            explanation: raw.explanation,
            hash: Vec::new(),
        };
        proof {
            assert(r@ =~~= instantiated_option(rv, r@.id));
        }
        r
    }

    /// Binds the back-reference to the owning question. The hash does not
    /// change: back-references never enter a hash.
    pub fn set_question_id(&mut self, question_id: Vec<u8>)
        ensures
            final(self)@ == (OptionView { question_id: Some(question_id@), ..old(self)@ }),
    {
        self.question_id = Some(question_id);
    }
}

impl QuestionData {
    /// Builds the question for a raw record, generating fresh identities
    /// where the record carries none.
    pub fn from_raw(raw: RawQuestionData) -> (r: Self)
        ensures
            question_instantiates(r@, raw@),
    {
        let ghost rv = raw@;
        let RawQuestionData { id, text, options, evaluation, source, asked_at, image } = raw;
        let ghost raw_options = raw_option_views(options@);
        let id = match id {
            Some(id) => id,
            None => generate_id(),
        };
        let mut question_options: Vec<QuestionOptionData> = Vec::new();
        let mut opts = options;
        proof {
            assert(raw_option_views(opts@) =~= raw_options.skip(0));
        }
        while opts.len() > 0
            invariant
                question_options@.len() + opts@.len() == raw_options.len(),
                raw_option_views(opts@) == raw_options.skip(question_options@.len() as int),
                forall|i: int|
                    0 <= i < question_options@.len() ==> option_instantiates(
                        #[trigger] option_views(question_options@)[i],
                        raw_options[i],
                    ),
            decreases opts.len(),
        {
            let ghost done = question_options@.len() as int;
            let ghost opts_pre = opts@;
            let o = opts.remove(0);
            proof {
                assert(raw_option_views(opts_pre)[0] == o@);
                assert(o@ == raw_options[done]);
                assert forall|i: int| 0 <= i < opts@.len() implies raw_option_views(opts@)[i]
                    == raw_options.skip(done + 1)[i] by {
                    assert(opts@[i] == opts_pre[i + 1]);
                    assert(raw_option_views(opts_pre)[i + 1] == raw_options.skip(done)[i + 1]);
                }
                assert(raw_option_views(opts@) =~= raw_options.skip(done + 1));
            }
            let built = QuestionOptionData::from_raw(o);
            let ghost prev = question_options@;
            question_options.push(built);
            proof {
                assert(option_views(question_options@) =~= option_views(prev).push(built@));
            }
        }
        let r = QuestionData {
            id,
            course_key: None,
            evaluation,
            source,
            asked_at,
            text,
            image_url: image,
            question_options,
            hash: Vec::new(),
        };
        proof {
            assert(r@.question_options =~= option_views(r.question_options@));
            assert(r@ =~~= instantiated_question(rv, r@.id, r@.question_options));
        }
        r
    }

    /// Binds the back-reference to the owning course and fully qualifies the
    /// evaluation key. The hash does not change: it was computed from the
    /// unqualified evaluation name, and back-references never enter a hash.
    pub fn set_course_key(&mut self, course_key: Vec<u8>)
        ensures
            final(self)@ == (QuestionView {
                course_key: Some(course_key@),
                evaluation: full_key_spec(course_key@, old(self)@.evaluation),
                ..old(self)@
            }),
    {
        let qualified = CourseEvaluationData::full_key(course_key.as_slice(), self.evaluation.as_slice());
        self.evaluation = qualified;
        self.course_key = Some(course_key);
    }
}

/// A fully qualified evaluation key: course key, separator, evaluation key.
pub open spec fn full_key_spec(course_key: Seq<u8>, key: Seq<u8>) -> Seq<u8> {
    course_key + seq![COURSE_EVALUATION_KEY_SEPARATOR] + key
}

impl CourseEvaluationData {
    /// Builds the evaluation for a raw record; its hash covers the display
    /// name alone.
    pub fn new(raw: RawCourseEvaluationData) -> (r: Self)
        ensures
            r@ == instantiated_evaluation(raw@),
    {
        let hash = blake3_hex(raw.name.as_slice());
        CourseEvaluationData { course_key: None, key: raw.key, name: raw.name, hash }
    }

    /// Binds the back-reference to the owning course and fully qualifies the
    /// key. The hash does not change.
    pub fn set_course_key(&mut self, course_key: Vec<u8>)
        ensures
            final(self)@ == (EvaluationView {
                course_key: Some(course_key@),
                key: full_key_spec(course_key@, old(self)@.key),
                ..old(self)@
            }),
    {
        let qualified = Self::full_key(course_key.as_slice(), self.key.as_slice());
        self.key = qualified;
        self.course_key = Some(course_key);
    }

    /// Joins a course key and an evaluation key into the fully qualified
    /// form.
    pub fn full_key(course_key: &[u8], key: &[u8]) -> (r: Vec<u8>)
        ensures
            r@ == full_key_spec(course_key@, key@),
    {
        let mut r = copy_bytes(course_key);
        r.push(COURSE_EVALUATION_KEY_SEPARATOR);
        let mut rest = copy_bytes(key);
        r.append(&mut rest);
        proof {
            assert(r@ =~= full_key_spec(course_key@, key@));
        }
        r
    }
}

impl CourseData {
    /// Builds the course for a raw record under the key derived from its
    /// source unit's name, generating fresh identities where the record
    /// carries none. The tree is not yet validated, canonical or hashed.
    pub fn new(key: Vec<u8>, raw: RawCourseData) -> (r: Self)
        ensures
            course_instantiates(r@, key@, raw@),
    {
        let ghost rv = raw@;
        let RawCourseData { name, short_name, aliases, year, questions, evaluations } = raw;
        let ghost raw_questions = raw_question_views(questions@);
        let ghost raw_evaluations = raw_evaluation_views(evaluations@);
        let mut built_questions: Vec<QuestionData> = Vec::new();
        let mut qs = questions;
        proof {
            assert(raw_question_views(qs@) =~= raw_questions.skip(0));
        }
        while qs.len() > 0
            invariant
                built_questions@.len() + qs@.len() == raw_questions.len(),
                raw_question_views(qs@) == raw_questions.skip(built_questions@.len() as int),
                forall|i: int|
                    0 <= i < built_questions@.len() ==> question_instantiates(
                        #[trigger] question_views(built_questions@)[i],
                        raw_questions[i],
                    ),
            decreases qs.len(),
        {
            let ghost done = built_questions@.len() as int;
            let ghost qs_pre = qs@;
            let q = qs.remove(0);
            proof {
                assert(raw_question_views(qs_pre)[0] == q@);
                assert(q@ == raw_questions[done]);
                assert forall|i: int| 0 <= i < qs@.len() implies raw_question_views(qs@)[i]
                    == raw_questions.skip(done + 1)[i] by {
                    assert(qs@[i] == qs_pre[i + 1]);
                    assert(raw_question_views(qs_pre)[i + 1] == raw_questions.skip(done)[i + 1]);
                }
                assert(raw_question_views(qs@) =~= raw_questions.skip(done + 1));
            }
            let built = QuestionData::from_raw(q);
            let ghost prev = built_questions@;
            built_questions.push(built);
            proof {
                assert(question_views(built_questions@) =~= question_views(prev).push(built@));
            }
        }
        let mut built_evaluations: Vec<CourseEvaluationData> = Vec::new();
        let mut evs = evaluations;
        proof {
            assert(raw_evaluation_views(evs@) =~= raw_evaluations.skip(0));
        }
        while evs.len() > 0
            invariant
                built_evaluations@.len() + evs@.len() == raw_evaluations.len(),
                raw_evaluation_views(evs@) == raw_evaluations.skip(built_evaluations@.len() as int),
                forall|i: int|
                    0 <= i < built_evaluations@.len()
                        ==> #[trigger] evaluation_views(built_evaluations@)[i]
                        == instantiated_evaluation(raw_evaluations[i]),
            decreases evs.len(),
        {
            let ghost done = built_evaluations@.len() as int;
            let ghost evs_pre = evs@;
            let e = evs.remove(0);
            proof {
                assert(raw_evaluation_views(evs_pre)[0] == e@);
                assert(e@ == raw_evaluations[done]);
                assert forall|i: int| 0 <= i < evs@.len() implies raw_evaluation_views(evs@)[i]
                    == raw_evaluations.skip(done + 1)[i] by {
                    assert(evs@[i] == evs_pre[i + 1]);
                    assert(raw_evaluation_views(evs_pre)[i + 1] == raw_evaluations.skip(done)[i + 1]);
                }
                assert(raw_evaluation_views(evs@) =~= raw_evaluations.skip(done + 1));
            }
            let built = CourseEvaluationData::new(e);
            let ghost prev = built_evaluations@;
            built_evaluations.push(built);
            proof {
                assert(evaluation_views(built_evaluations@) =~= evaluation_views(prev).push(
                    built@,
                ));
            }
        }
        let r = CourseData {
            key,
            name,
            short_name,
            aliases,
            year,
            questions: built_questions,
            evaluations: built_evaluations,
            hash: Vec::new(),
        };
        proof {
            assert(r@.questions =~= question_views(r.questions@));
            assert(r@.evaluations =~= evaluation_views(r.evaluations@));
            assert(r@.aliases =~= rv.aliases);
        }
        r
    }
}

} // verus!
