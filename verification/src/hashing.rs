//! The hierarchical hasher.
//!
//! Every entity's digest covers its own fields followed by the digests of
//! its owned children in canonical order, so a leaf change propagates to
//! every ancestor. Back-references (`course_key`, `question_id`) never
//! enter any digest input, and an evaluation's digest covers its display
//! name alone.

use vstd::prelude::*;

use crate::data::{
    CourseData, CourseEvaluationData, CourseView, EvaluationView, OptionView, QuestionData,
    QuestionOptionData, QuestionView, evaluation_views, option_views, question_views,
};
use crate::digest::{blake3_hex, blake3_hex_of};
use crate::text::copy_bytes;

verus! {

/// The bytes of an optional field: the value's bytes when present, nothing
/// when absent.
pub open spec fn opt_bytes(e: Option<Seq<u8>>) -> Seq<u8> {
    match e {
        Some(s) => s,
        None => Seq::empty(),
    }
}

/// The byte a correctness flag contributes to a digest input.
pub open spec fn bool_byte(b: bool) -> u8 {
    if b {
        1u8
    } else {
        0u8
    }
}

/// All the byte strings of a sequence, joined in order.
pub open spec fn concat_all(parts: Seq<Seq<u8>>) -> Seq<u8>
    decreases parts.len(),
{
    if parts.len() == 0 {
        Seq::empty()
    } else {
        concat_all(parts.drop_last()) + parts.last()
    }
}

/// The hash fields of a sequence of options.
pub open spec fn option_hashes(os: Seq<OptionView>) -> Seq<Seq<u8>> {
    os.map_values(|o: OptionView| o.hash)
}

/// The hash fields of a sequence of questions.
pub open spec fn question_hashes(qs: Seq<QuestionView>) -> Seq<Seq<u8>> {
    qs.map_values(|q: QuestionView| q.hash)
}

/// The hash fields of a sequence of evaluations.
pub open spec fn evaluation_hashes(es: Seq<EvaluationView>) -> Seq<Seq<u8>> {
    es.map_values(|e: EvaluationView| e.hash)
}

/// An option's digest input: identity, text, the correctness byte, and the
/// explanation when present.
pub open spec fn option_hash_input(o: OptionView) -> Seq<u8> {
    o.id + o.text + seq![bool_byte(o.correct)] + opt_bytes(o.explanation)
}

/// A question's digest input: identity, text, image reference when present,
/// the digests of its options in order, the evaluation name, the source,
/// and the ask-date when present.
pub open spec fn question_hash_input(q: QuestionView) -> Seq<u8> {
    q.id + q.text + opt_bytes(q.image_url) + concat_all(option_hashes(q.question_options))
        + q.evaluation + q.source + opt_bytes(q.asked_at)
}

/// The high byte of a year in big-endian form.
pub open spec fn i16_be_hi(y: i16) -> u8 {
    ((y as u16) >> 8u16) as u8
}

/// The low byte of a year in big-endian form.
pub open spec fn i16_be_lo(y: i16) -> u8 {
    (y as u16) as u8
}

/// The bytes a year contributes to a course's digest input: two big-endian
/// bytes when present, nothing when absent.
pub open spec fn year_bytes(y: Option<i16>) -> Seq<u8> {
    match y {
        Some(v) => seq![i16_be_hi(v), i16_be_lo(v)],
        None => Seq::empty(),
    }
}

/// A course's digest input: key, names, aliases joined, the year bytes,
/// then the digests of its questions and of its evaluations in order.
pub open spec fn course_hash_input(c: CourseView) -> Seq<u8> {
    c.key + c.name + c.short_name + concat_all(c.aliases) + year_bytes(c.year) + concat_all(
        question_hashes(c.questions),
    ) + concat_all(evaluation_hashes(c.evaluations))
}

/// An evaluation's digest input: its display name alone, so re-keying or
/// re-parenting an evaluation does not change its digest.
pub open spec fn evaluation_hash_input(e: EvaluationView) -> Seq<u8> {
    e.name
}

/// An option with its digest assigned.
pub open spec fn hashed_option(o: OptionView) -> OptionView {
    OptionView { hash: blake3_hex_of(option_hash_input(o)), ..o }
}

/// An evaluation with its digest assigned.
pub open spec fn hashed_evaluation(e: EvaluationView) -> EvaluationView {
    EvaluationView { hash: blake3_hex_of(evaluation_hash_input(e)), ..e }
}

/// A question with its own digest and its options' digests assigned,
/// bottom-up: the question's digest input covers the options' assigned
/// digests.
pub open spec fn hashed_question(q: QuestionView) -> QuestionView {
    let with_options = QuestionView {
        question_options: q.question_options.map_values(|o: OptionView| hashed_option(o)),
        ..q
    };
    QuestionView { hash: blake3_hex_of(question_hash_input(with_options)), ..with_options }
}

/// A course with every digest in its tree assigned, bottom-up.
pub open spec fn hashed_course(c: CourseView) -> CourseView {
    let with_children = CourseView {
        questions: c.questions.map_values(|q: QuestionView| hashed_question(q)),
        evaluations: c.evaluations.map_values(|e: EvaluationView| hashed_evaluation(e)),
        ..c
    };
    CourseView { hash: blake3_hex_of(course_hash_input(with_children)), ..with_children }
}

impl QuestionOptionData {
    /// The bytes this option's digest is computed over.
    pub fn hashable_data(&self) -> (r: Vec<u8>)
        ensures
            r@ == option_hash_input(self@),
    {
        let mut bytes = copy_bytes(self.id.as_slice());
        let mut part = copy_bytes(self.text.as_slice());
        bytes.append(&mut part);
        bytes.push(if self.correct { 1u8 } else { 0u8 });
        match &self.explanation {
            Some(e) => {
                let mut part = copy_bytes(e.as_slice());
                bytes.append(&mut part);
            },
            None => {},
        }
        proof {
            assert(bytes@ =~= option_hash_input(self@));
        }
        bytes
    }

    /// Assigns this option's digest.
    pub fn set_hash(&mut self)
        ensures
            final(self)@ == hashed_option(old(self)@),
    {
        let data = self.hashable_data();
        self.hash = blake3_hex(data.as_slice());
        proof {
            assert(self@ =~~= hashed_option(old(self)@));
        }
    }
}

impl CourseEvaluationData {
    /// The bytes this evaluation's digest is computed over: the display
    /// name alone.
    pub fn hashable_data(&self) -> (r: Vec<u8>)
        ensures
            r@ == evaluation_hash_input(self@),
    {
        copy_bytes(self.name.as_slice())
    }

    /// Assigns this evaluation's digest.
    pub fn set_hash(&mut self)
        ensures
            final(self)@ == hashed_evaluation(old(self)@),
    {
        let data = self.hashable_data();
        self.hash = blake3_hex(data.as_slice());
        proof {
            assert(self@ =~~= hashed_evaluation(old(self)@));
        }
    }
}

impl QuestionData {
    /// The bytes this question's digest is computed over, reading its
    /// options' already-assigned digests.
    pub fn hashable_data(&self) -> (r: Vec<u8>)
        ensures
            r@ == question_hash_input(self@),
    {
        let mut bytes = copy_bytes(self.id.as_slice());
        let mut part = copy_bytes(self.text.as_slice());
        bytes.append(&mut part);
        match &self.image_url {
            Some(u) => {
                let mut part = copy_bytes(u.as_slice());
                bytes.append(&mut part);
            },
            None => {},
        }
        let ghost child_hashes = option_hashes(self@.question_options);
        let mut i: usize = 0;
        while i < self.question_options.len()
            invariant
                i <= self.question_options.len(),
                child_hashes == option_hashes(self@.question_options),
                child_hashes.len() == self.question_options.len(),
                bytes@ == self@.id + self@.text + opt_bytes(self@.image_url) + concat_all(
                    child_hashes.take(i as int),
                ),
            decreases self.question_options.len() - i,
        {
            let mut part = copy_bytes(self.question_options[i].hash.as_slice());
            bytes.append(&mut part);
            proof {
                assert(child_hashes.take(i + 1).drop_last() =~= child_hashes.take(i as int));
                assert(child_hashes.take(i + 1).last() == self.question_options[i as int]@.hash);
            }
            i = i + 1;
        }
        proof {
            assert(child_hashes.take(child_hashes.len() as int) =~= child_hashes);
        }
        let mut part = copy_bytes(self.evaluation.as_slice());
        bytes.append(&mut part);
        let mut part = copy_bytes(self.source.as_slice());
        bytes.append(&mut part);
        match &self.asked_at {
            Some(d) => {
                let mut part = copy_bytes(d.as_slice());
                bytes.append(&mut part);
            },
            None => {},
        }
        proof {
            assert(bytes@ =~= question_hash_input(self@));
        }
        bytes
    }

    /// Assigns this question's digest and its options' digests, bottom-up.
    pub fn set_hashes(&mut self)
        ensures
            final(self)@ == hashed_question(old(self)@),
    {
        let ghost orig = self@;
        let n = self.question_options.len();
        let mut i: usize = 0;
        while i < n
            invariant
                i <= n,
                n == self.question_options.len(),
                orig.question_options.len() == n,
                forall|k: int|
                    0 <= k < i ==> #[trigger] self.question_options@[k]@ == hashed_option(
                        orig.question_options[k],
                    ),
                forall|k: int|
                    i <= k < n ==> #[trigger] self.question_options@[k]@
                        == orig.question_options[k],
                self@ == (QuestionView {
                    question_options: option_views(self.question_options@),
                    ..orig
                }),
            decreases n - i,
        {
            let mut o = self.question_options.remove(i);
            o.set_hash();
            self.question_options.insert(i, o);
            i = i + 1;
        }
        let data = self.hashable_data();
        self.hash = blake3_hex(data.as_slice());
        proof {
            assert(self@.question_options =~= orig.question_options.map_values(
                |o: OptionView| hashed_option(o),
            ));
            assert(self@ =~~= hashed_question(orig));
        }
    }
}

impl CourseData {
    /// The bytes this course's digest is computed over, reading its
    /// children's already-assigned digests.
    pub fn hashable_data(&self) -> (r: Vec<u8>)
        ensures
            r@ == course_hash_input(self@),
    {
        let mut bytes = copy_bytes(self.key.as_slice());
        let mut part = copy_bytes(self.name.as_slice());
        bytes.append(&mut part);
        let mut part = copy_bytes(self.short_name.as_slice());
        bytes.append(&mut part);
        let ghost alias_views = self@.aliases;
        let mut i: usize = 0;
        while i < self.aliases.len()
            invariant
                i <= self.aliases.len(),
                alias_views == self@.aliases,
                alias_views.len() == self.aliases.len(),
                bytes@ == self@.key + self@.name + self@.short_name + concat_all(
                    alias_views.take(i as int),
                ),
            decreases self.aliases.len() - i,
        {
            let mut part = copy_bytes(self.aliases[i].as_slice());
            bytes.append(&mut part);
            proof {
                assert(alias_views.take(i + 1).drop_last() =~= alias_views.take(i as int));
                assert(alias_views.take(i + 1).last() == self.aliases@[i as int]@);
            }
            i = i + 1;
        }
        proof {
            assert(alias_views.take(alias_views.len() as int) =~= alias_views);
        }
        match self.year {
            Some(y) => {
                let u: u16 = #[verifier::truncate] (y as u16);
                let hi: u8 = #[verifier::truncate] ((u >> 8u16) as u8);
                let lo: u8 = #[verifier::truncate] (u as u8);
                bytes.push(hi);
                bytes.push(lo);
            },
            None => {},
        }
        let ghost with_year = self@.key + self@.name + self@.short_name + concat_all(self@.aliases)
            + year_bytes(self@.year);
        proof {
            assert(bytes@ =~= with_year);
        }
        let ghost q_hashes = question_hashes(self@.questions);
        let mut i: usize = 0;
        while i < self.questions.len()
            invariant
                i <= self.questions.len(),
                q_hashes == question_hashes(self@.questions),
                q_hashes.len() == self.questions.len(),
                bytes@ == with_year + concat_all(q_hashes.take(i as int)),
            decreases self.questions.len() - i,
        {
            let mut part = copy_bytes(self.questions[i].hash.as_slice());
            bytes.append(&mut part);
            proof {
                assert(q_hashes.take(i + 1).drop_last() =~= q_hashes.take(i as int));
                assert(q_hashes.take(i + 1).last() == self.questions@[i as int]@.hash);
            }
            i = i + 1;
        }
        proof {
            assert(q_hashes.take(q_hashes.len() as int) =~= q_hashes);
        }
        let ghost e_hashes = evaluation_hashes(self@.evaluations);
        let mut i: usize = 0;
        while i < self.evaluations.len()
            invariant
                i <= self.evaluations.len(),
                e_hashes == evaluation_hashes(self@.evaluations),
                e_hashes.len() == self.evaluations.len(),
                bytes@ == with_year + concat_all(q_hashes) + concat_all(e_hashes.take(i as int)),
            decreases self.evaluations.len() - i,
        {
            let mut part = copy_bytes(self.evaluations[i].hash.as_slice());
            bytes.append(&mut part);
            proof {
                assert(e_hashes.take(i + 1).drop_last() =~= e_hashes.take(i as int));
                assert(e_hashes.take(i + 1).last() == self.evaluations@[i as int]@.hash);
            }
            i = i + 1;
        }
        proof {
            assert(e_hashes.take(e_hashes.len() as int) =~= e_hashes);
            assert(bytes@ =~= course_hash_input(self@));
        }
        bytes
    }

    /// Assigns every digest in this course's tree, bottom-up: options, then
    /// questions, then evaluations, then the course itself.
    pub fn set_hashes(&mut self)
        ensures
            final(self)@ == hashed_course(old(self)@),
    {
        let ghost orig = self@;
        let n = self.questions.len();
        let mut i: usize = 0;
        while i < n
            invariant
                i <= n,
                n == self.questions.len(),
                orig.questions.len() == n,
                forall|k: int|
                    0 <= k < i ==> #[trigger] self.questions@[k]@ == hashed_question(
                        orig.questions[k],
                    ),
                forall|k: int| i <= k < n ==> #[trigger] self.questions@[k]@ == orig.questions[k],
                self@ == (CourseView { questions: question_views(self.questions@), ..orig }),
            decreases n - i,
        {
            let mut q = self.questions.remove(i);
            q.set_hashes();
            self.questions.insert(i, q);
            i = i + 1;
        }
        let m = self.evaluations.len();
        let mut j: usize = 0;
        while j < m
            invariant
                j <= m,
                m == self.evaluations.len(),
                orig.evaluations.len() == m,
                forall|k: int|
                    0 <= k < j ==> #[trigger] self.evaluations@[k]@ == hashed_evaluation(
                        orig.evaluations[k],
                    ),
                forall|k: int|
                    j <= k < m ==> #[trigger] self.evaluations@[k]@ == orig.evaluations[k],
                self@ == (CourseView {
                    questions: question_views(self.questions@),
                    evaluations: evaluation_views(self.evaluations@),
                    ..orig
                }),
                self.questions@.len() == orig.questions.len(),
                forall|k: int|
                    0 <= k < orig.questions.len() ==> #[trigger] self.questions@[k]@
                        == hashed_question(orig.questions[k]),
            decreases m - j,
        {
            let mut e = self.evaluations.remove(j);
            e.set_hash();
            self.evaluations.insert(j, e);
            j = j + 1;
        }
        let data = self.hashable_data();
        self.hash = blake3_hex(data.as_slice());
        proof {
            assert(self@.questions =~= orig.questions.map_values(
                |q: QuestionView| hashed_question(q),
            ));
            assert(self@.evaluations =~= orig.evaluations.map_values(
                |e: EvaluationView| hashed_evaluation(e),
            ));
            assert(self@ =~~= hashed_course(orig));
        }
    }
}

} // verus!
